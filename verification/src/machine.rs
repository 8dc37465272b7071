//! The suspendable decode as a state machine: its states, its two moves, and
//! the laws that tie it to the blocking decode.
//!
//! A machine holds the values that are being put together, outermost first,
//! and what it is at. It moves in two ways. `advance` needs no bytes: it
//! enters the value that comes next, or hands a complete value to the value
//! that waits for it. `feed` takes the bytes of one read: a scalar, a length
//! or a discriminant. `needs` says which move is due.

use vstd::prelude::*;
use crate::big_endian::be_value;
use crate::elements::{decode_elements, prepend};
use crate::grammar::{
    decoding, definition_fault, fields_resolve, lemma_parse_fields_level, lemma_parse_shape_rest,
    parse_elements, parse_fields, parse_sum, parse_variant, well_formed,
};
use crate::reader::{DecodeError, Decoding};
use crate::scalar::{lift, Primitive};
use crate::shape::{Shape, TypeDef};
use crate::string_serialize::text_of;
use crate::value::Datum;
use crate::Serializeable;

verus! {

/// A value that is being put together and waits for one of its parts.
pub enum Waiting {
    /// An owned indirection, waiting for what it holds.
    Boxed,
    /// A sequence, waiting for an element; `left` more come after it.
    Elements { element: Shape, left: nat, done: Seq<Datum>, growable: bool },
    /// A product or, with a discriminant, a variant of a sum, waiting for the
    /// field that comes after those done.
    Fields { fields: Seq<Shape>, done: Seq<Datum>, id: Option<u8> },
}

/// What the machine is at.
pub enum Activity {
    /// A value of this shape comes next.
    Start(Shape),
    /// The bytes of a text come next, `left` of them, after those in `units`.
    Text { left: nat, units: Seq<u8> },
    /// A value is complete and goes to whatever waits for it.
    Return(Datum),
    /// The decode has failed.
    Failed(DecodeError),
}

/// A decode in progress: the values that wait, outermost first, and what
/// the machine is at.
pub struct Machine {
    pub stack: Seq<Waiting>,
    pub activity: Activity,
}

/// A fixed or a growable sequence of these items.
pub open spec fn sequence_of(growable: bool, items: Seq<Datum>) -> Datum {
    if growable {
        Datum::Growable(items)
    } else {
        Datum::Fixed(items)
    }
}

/// A product of these fields or, with a discriminant, the variant with them.
pub open spec fn aggregate_of(id: Option<u8>, values: Seq<Datum>) -> Datum {
    match id {
        Some(id) => Datum::Variant(id, values),
        None => Datum::Product(values),
    }
}

/// What a text comes to whose first bytes are `units` and whose other bytes
/// are still to be decoded.
pub open spec fn text_tail(units: Seq<u8>, more: Decoding<Seq<u8>>) -> Decoding<Datum> {
    match more.outcome {
        Ok(later) => match text_of(units + later) {
            Ok(text) => Decoding::done(Datum::Text(text), more.rest),
            Err(error) => Decoding::failed(error, more.rest),
        },
        Err(error) => Decoding::failed(error, more.rest),
    }
}

/// What the machine is at once all the bytes of a text are there.
pub open spec fn text_read(units: Seq<u8>) -> Activity {
    match text_of(units) {
        Ok(text) => Activity::Return(Datum::Text(text)),
        Err(error) => Activity::Failed(error),
    }
}

impl Waiting {
    /// Whether the value that waits is over these definitions.
    pub open spec fn wf(self, defs: Seq<TypeDef>) -> bool {
        match self {
            Waiting::Boxed => true,
            Waiting::Elements { element, .. } => element.resolves(defs.len()),
            Waiting::Fields { fields, done, .. } => fields_resolve(fields, defs.len()) && done.len()
                < fields.len(),
        }
    }

    /// What the value that waits comes to, once the part it waits for is
    /// `datum` and `bytes` are left.
    pub open spec fn complete(self, defs: Seq<TypeDef>, datum: Datum, bytes: Seq<u8>) -> Decoding<
        Datum,
    > {
        match self {
            Waiting::Boxed => Decoding::done(Datum::Boxed(Box::new(datum)), bytes),
            Waiting::Elements { element, left, done, growable } => lift(
                prepend(
                    done.push(datum),
                    parse_elements(defs, element, left, bytes, defs.len()),
                ),
                |items: Seq<Datum>| sequence_of(growable, items),
            ),
            Waiting::Fields { fields, done, id } => lift(
                prepend(
                    done.push(datum),
                    parse_fields(defs, fields.skip(done.len() as int + 1), bytes, defs.len()),
                ),
                |values: Seq<Datum>| aggregate_of(id, values),
            ),
        }
    }

    /// What the value that waits comes to, given what the part it waits for
    /// comes to.
    pub open spec fn through(self, defs: Seq<TypeDef>, part: Decoding<Datum>) -> Decoding<Datum> {
        match part.outcome {
            Ok(datum) => self.complete(defs, datum, part.rest),
            Err(error) => Decoding::failed(error, part.rest),
        }
    }

    /// The move that hands `datum` to this value, which waits on top of
    /// `below`: the value is complete itself, or waits for its next part.
    pub open spec fn take(self, below: Seq<Waiting>, datum: Datum) -> Machine {
        match self {
            Waiting::Boxed => Machine {
                stack: below,
                activity: Activity::Return(Datum::Boxed(Box::new(datum))),
            },
            Waiting::Elements { element, left, done, growable } => if left == 0 {
                Machine {
                    stack: below,
                    activity: Activity::Return(sequence_of(growable, done.push(datum))),
                }
            } else {
                Machine {
                    stack: below.push(
                        Waiting::Elements {
                            element,
                            left: (left - 1) as nat,
                            done: done.push(datum),
                            growable,
                        },
                    ),
                    activity: Activity::Start(element),
                }
            },
            Waiting::Fields { fields, done, id } => if done.len() + 1 == fields.len() {
                Machine {
                    stack: below,
                    activity: Activity::Return(aggregate_of(id, done.push(datum))),
                }
            } else {
                Machine {
                    stack: below.push(Waiting::Fields { fields, done: done.push(datum), id }),
                    activity: Activity::Start(fields[done.len() as int + 1]),
                }
            },
        }
    }
}

/// Whether every value that waits is over these definitions.
pub open spec fn stack_wf(defs: Seq<TypeDef>, stack: Seq<Waiting>) -> bool {
    forall|i: int| 0 <= i < stack.len() ==> (#[trigger] stack[i]).wf(defs)
}

/// What the whole decode comes to, given what the innermost value in
/// progress comes to and the values that wait, outermost first.
pub open spec fn pursue(defs: Seq<TypeDef>, stack: Seq<Waiting>, inner: Decoding<Datum>)
    -> Decoding<Datum>
    decreases stack.len(),
{
    if stack.len() == 0 {
        inner
    } else {
        pursue(defs, stack.drop_last(), stack.last().through(defs, inner))
    }
}

/// The move that enters sequences, of `count` elements, after their length
/// is known or was read.
pub open spec fn enter_elements(
    stack: Seq<Waiting>,
    element: Shape,
    count: nat,
    growable: bool,
) -> Machine {
    if count == 0 {
        Machine { stack, activity: Activity::Return(sequence_of(growable, Seq::empty())) }
    } else {
        Machine {
            stack: stack.push(
                Waiting::Elements {
                    element,
                    left: (count - 1) as nat,
                    done: Seq::empty(),
                    growable,
                },
            ),
            activity: Activity::Start(element),
        }
    }
}

/// The move that enters the fields of a product or, with a discriminant, of a
/// variant.
pub open spec fn enter_fields(stack: Seq<Waiting>, fields: Seq<Shape>, id: Option<u8>) -> Machine {
    if fields.len() == 0 {
        Machine { stack, activity: Activity::Return(aggregate_of(id, Seq::empty())) }
    } else {
        Machine {
            stack: stack.push(Waiting::Fields { fields, done: Seq::empty(), id }),
            activity: Activity::Start(fields[0]),
        }
    }
}

impl Activity {
    /// Whether the activity is over these definitions.
    pub open spec fn wf(self, defs: Seq<TypeDef>) -> bool {
        match self {
            Activity::Start(shape) => shape.resolves(defs.len()),
            Activity::Text { left, .. } => left >= 1,
            _ => true,
        }
    }

    /// What the innermost value in progress comes to if `bytes` is what
    /// follows.
    pub open spec fn current(self, defs: Seq<TypeDef>, bytes: Seq<u8>) -> Decoding<Datum> {
        match self {
            Activity::Start(shape) => decoding(defs, shape, bytes),
            Activity::Text { left, units } => text_tail(units, decode_elements::<u8>(bytes, left)),
            Activity::Return(datum) => Decoding::done(datum, bytes),
            Activity::Failed(error) => Decoding::failed(error, bytes),
        }
    }

    /// How many bytes are needed before the decode can go on.
    pub open spec fn needs(self, defs: Seq<TypeDef>) -> nat {
        match self {
            Activity::Start(shape) => match shape {
                Shape::Scalar(kind) => kind.size(),
                Shape::Text => 8,
                Shape::Growable(_) => 8,
                Shape::Named(index) => if defs[index as int] is Sum {
                    1
                } else {
                    0
                },
                _ => 0,
            },
            Activity::Text { .. } => 1,
            _ => 0,
        }
    }
}

impl Machine {
    /// The machine at the start of a value of `shape`.
    pub open spec fn start(shape: Shape) -> Machine {
        Machine { stack: Seq::empty(), activity: Activity::Start(shape) }
    }

    /// Whether the machine is over these definitions.
    pub open spec fn wf(self, defs: Seq<TypeDef>) -> bool {
        self.activity.wf(defs) && stack_wf(defs, self.stack)
    }

    /// What the whole decode comes to if `bytes` is what follows the bytes
    /// given so far.
    pub open spec fn outlook(self, defs: Seq<TypeDef>, bytes: Seq<u8>) -> Decoding<Datum> {
        pursue(defs, self.stack, self.activity.current(defs, bytes))
    }

    /// How many bytes the machine needs next: none, when it can go on
    /// without or has finished.
    pub open spec fn needs(self, defs: Seq<TypeDef>) -> nat {
        self.activity.needs(defs)
    }

    /// Whether the decode has come to its value or to a failure.
    pub open spec fn finished(self) -> bool {
        match self.activity {
            Activity::Return(_) => self.stack.len() == 0,
            Activity::Failed(_) => true,
            _ => false,
        }
    }

    /// The value or the failure that a finished decode has come to.
    pub open spec fn result(self) -> Result<Datum, DecodeError> {
        match self.activity {
            Activity::Return(datum) => Ok(datum),
            Activity::Failed(error) => Err(error),
            _ => Err(DecodeError::UnexpectedEof),
        }
    }

    /// The move that needs no bytes, where one is due: the machine enters a
    /// fixed sequence, an owned indirection or a product, or hands a complete
    /// value to the value that waits for it. Elsewhere the machine stays as
    /// it is.
    pub open spec fn advance(self, defs: Seq<TypeDef>) -> Machine {
        match self.activity {
            Activity::Start(shape) => match shape {
                Shape::Fixed(arity, element) => enter_elements(
                    self.stack,
                    *element,
                    arity as nat,
                    false,
                ),
                Shape::Boxed(inner) => Machine {
                    stack: self.stack.push(Waiting::Boxed),
                    activity: Activity::Start(*inner),
                },
                Shape::Named(index) => match defs[index as int] {
                    TypeDef::Product(fields) => enter_fields(self.stack, fields@, None),
                    TypeDef::Sum(_) => self,
                },
                _ => self,
            },
            Activity::Return(datum) => if self.stack.len() == 0 {
                self
            } else {
                self.stack.last().take(self.stack.drop_last(), datum)
            },
            _ => self,
        }
    }

    /// The move that takes the bytes of one read: a scalar, the length of a
    /// text or of a growable sequence, the discriminant of a sum, or one byte
    /// of a text.
    pub open spec fn feed(self, defs: Seq<TypeDef>, chunk: Seq<u8>) -> Machine {
        match self.activity {
            Activity::Start(shape) => match shape {
                Shape::Scalar(kind) => Machine {
                    stack: self.stack,
                    activity: match Primitive::decoding(kind, chunk).outcome {
                        Ok(scalar) => Activity::Return(Datum::Scalar(scalar)),
                        Err(error) => Activity::Failed(error),
                    },
                },
                Shape::Text => Machine {
                    stack: self.stack,
                    activity: if be_value(chunk) == 0 {
                        text_read(Seq::empty())
                    } else {
                        Activity::Text { left: be_value(chunk), units: Seq::empty() }
                    },
                },
                Shape::Growable(element) => enter_elements(
                    self.stack,
                    *element,
                    be_value(chunk),
                    true,
                ),
                Shape::Named(index) => match defs[index as int] {
                    TypeDef::Sum(variants) => if chunk[0] >= variants@.len() {
                        Machine {
                            stack: self.stack,
                            activity: Activity::Failed(
                                DecodeError::InvalidDiscriminant { found: chunk[0] },
                            ),
                        }
                    } else {
                        enter_fields(self.stack, variants@[chunk[0] as int]@, Some(chunk[0]))
                    },
                    TypeDef::Product(_) => self,
                },
                _ => self,
            },
            Activity::Text { left, units } => Machine {
                stack: self.stack,
                activity: if left == 1 {
                    text_read(units.push(chunk[0]))
                } else {
                    Activity::Text { left: (left - 1) as nat, units: units.push(chunk[0]) }
                },
            },
            _ => self,
        }
    }
}

/// At the start, the machine comes to what the blocking decode comes to.
pub proof fn lemma_start(defs: Seq<TypeDef>, shape: Shape, bytes: Seq<u8>)
    ensures
        Machine::start(shape).outlook(defs, bytes) == decoding(defs, shape, bytes),
        shape.resolves(defs.len()) ==> Machine::start(shape).wf(defs),
{
}

/// Once it has finished, the machine has come to its result, and has taken
/// none of the bytes that follow.
pub proof fn lemma_finished(defs: Seq<TypeDef>, machine: Machine, bytes: Seq<u8>)
    requires
        machine.finished(),
    ensures
        machine.outlook(defs, bytes) == (Decoding { outcome: machine.result(), rest: bytes }),
{
    if machine.activity is Failed {
        lemma_pursue_failed(defs, machine.stack, machine.activity.current(defs, bytes));
    }
}

/// With fewer bytes left than the machine needs, the decode fails for want
/// of bytes, as the blocking decode does.
pub proof fn lemma_starved(defs: Seq<TypeDef>, machine: Machine, bytes: Seq<u8>)
    requires
        machine.wf(defs),
        bytes.len() < machine.needs(defs),
    ensures
        machine.outlook(defs, bytes) == Decoding::<Datum>::starved(),
{
    match machine.activity {
        Activity::Start(shape) => {
            match shape {
                Shape::Scalar(kind) => {
                    assert(Primitive::decoding(kind, bytes) == Decoding::<Primitive>::starved());
                },
                Shape::Named(index) => {
                    let variants = defs[index as int]->Sum_0;
                    assert(decoding(defs, shape, bytes) == parse_sum(defs, variants@, bytes));
                },
                _ => {},
            }
        },
        Activity::Text { left, units } => {
            assert(u8::decoding(bytes) == Decoding::<u8>::starved());
            assert(decode_elements::<u8>(bytes, left) == Decoding::<Seq<u8>>::starved());
        },
        _ => {},
    }
    lemma_pursue_failed(defs, machine.stack, machine.activity.current(defs, bytes));
}

/// A move without bytes changes nothing in what the decode comes to.
pub proof fn lemma_advance(defs: Seq<TypeDef>, machine: Machine, bytes: Seq<u8>)
    requires
        well_formed(defs),
        machine.wf(defs),
    ensures
        machine.advance(defs).wf(defs),
        machine.advance(defs).outlook(defs, bytes) == machine.outlook(defs, bytes),
{
    let stack = machine.stack;
    match machine.activity {
        Activity::Start(shape) => {
            match shape {
                Shape::Fixed(arity, element) => {
                    lemma_enter_elements(defs, stack, *element, arity as nat, false, bytes);
                },
                Shape::Boxed(inner) => {
                    lemma_enter(
                        defs,
                        stack,
                        Waiting::Boxed,
                        decoding(defs, shape, bytes),
                        decoding(defs, *inner, bytes),
                    );
                },
                Shape::Named(index) => {
                    assert(definition_fault(defs, index as int) is None);
                    match defs[index as int] {
                        TypeDef::Product(fields) => {
                            lemma_parse_fields_level(defs, fields@, bytes, index as nat);
                            lemma_enter_fields(defs, stack, fields@, None, bytes);
                        },
                        TypeDef::Sum(_) => {},
                    }
                },
                _ => {},
            }
        },
        Activity::Return(datum) => {
            if stack.len() > 0 {
                lemma_take(defs, stack.drop_last(), stack.last(), datum, bytes);
            }
        },
        _ => {},
    }
}

/// A move that takes the bytes of a read comes, on the bytes that follow, to
/// what the decode came to before on these bytes and those that follow.
pub proof fn lemma_feed(defs: Seq<TypeDef>, machine: Machine, chunk: Seq<u8>, bytes: Seq<u8>)
    requires
        well_formed(defs),
        machine.wf(defs),
        machine.needs(defs) > 0,
        chunk.len() == machine.needs(defs),
    ensures
        machine.feed(defs, chunk).wf(defs),
        machine.feed(defs, chunk).outlook(defs, bytes) == machine.outlook(defs, chunk + bytes),
{
    let stack = machine.stack;
    let whole = chunk + bytes;
    match machine.activity {
        Activity::Start(shape) => {
            match shape {
                Shape::Scalar(kind) => {
                    Primitive::lemma_decoding_prefix(kind, chunk, bytes);
                },
                Shape::Text => {
                    lemma_feed_text_length(chunk, bytes);
                },
                Shape::Growable(element) => {
                    assert(whole.take(8) =~= chunk);
                    assert(whole.skip(8) =~= bytes);
                    lemma_enter_elements(defs, stack, *element, be_value(chunk), true, bytes);
                },
                Shape::Named(index) => {
                    assert(definition_fault(defs, index as int) is None);
                    match defs[index as int] {
                        TypeDef::Sum(variants) => {
                            let id = chunk[0];
                            assert(whole[0] == id);
                            assert(whole.skip(1) =~= bytes);
                            assert(decoding(defs, shape, whole) == parse_sum(
                                defs,
                                variants@,
                                whole,
                            ));
                            if id >= variants@.len() {
                                lemma_pursue_failed(
                                    defs,
                                    stack,
                                    machine.feed(defs, chunk).activity.current(defs, bytes),
                                );
                                lemma_pursue_failed(defs, stack, decoding(defs, shape, whole));
                            } else {
                                let fields = variants@[id as int]@;
                                assert(parse_sum(defs, variants@, whole) == parse_variant(
                                    defs,
                                    fields,
                                    id,
                                    bytes,
                                ));
                                lemma_enter_fields(defs, stack, fields, Some(id), bytes);
                            }
                        },
                        TypeDef::Product(_) => {},
                    }
                },
                _ => {},
            }
        },
        Activity::Text { left, units } => {
            lemma_feed_text_byte(left, units, chunk, bytes);
        },
        _ => {},
    }
}

/// A failure of the innermost value is the failure of the whole decode.
pub proof fn lemma_pursue_failed(defs: Seq<TypeDef>, stack: Seq<Waiting>, inner: Decoding<Datum>)
    requires
        inner.outcome is Err,
    ensures
        pursue(defs, stack, inner) == inner,
    decreases stack.len(),
{
    if stack.len() > 0 {
        lemma_pursue_failed(defs, stack.drop_last(), stack.last().through(defs, inner));
    }
}

/// Entering a part: with the value that waits on the stack, the decode comes
/// to the same as before, when the value came next as a whole.
proof fn lemma_enter(
    defs: Seq<TypeDef>,
    stack: Seq<Waiting>,
    frame: Waiting,
    outer: Decoding<Datum>,
    inner: Decoding<Datum>,
)
    requires
        outer == frame.through(defs, inner),
    ensures
        pursue(defs, stack.push(frame), inner) == pursue(defs, stack, outer),
{
    assert(stack.push(frame).drop_last() =~= stack);
}

/// Nothing in front of a decode of several values changes nothing.
proof fn lemma_prepend_nothing(later: Decoding<Seq<Datum>>)
    ensures
        prepend(Seq::<Datum>::empty(), later) == later,
{
    match later.outcome {
        Ok(values) => {
            assert(Seq::<Datum>::empty() + values =~= values);
        },
        Err(_) => {},
    }
}

/// Elements after `done`: the first of them, then the others.
proof fn lemma_elements_step(
    defs: Seq<TypeDef>,
    element: Shape,
    left: nat,
    done: Seq<Datum>,
    bytes: Seq<u8>,
)
    ensures
        ({
            let first = decoding(defs, element, bytes);
            let whole = prepend(done, parse_elements(defs, element, left + 1, bytes, defs.len()));
            match first.outcome {
                Ok(datum) => whole == prepend(
                    done.push(datum),
                    parse_elements(defs, element, left, first.rest, defs.len()),
                ),
                Err(error) => whole == Decoding::<Seq<Datum>>::failed(error, first.rest),
            }
        }),
{
    let first = decoding(defs, element, bytes);
    lemma_parse_shape_rest(defs, element, bytes, defs.len());
    match first.outcome {
        Ok(datum) => {
            let later = parse_elements(defs, element, left, first.rest, defs.len());
            match later.outcome {
                Ok(items) => {
                    assert(done + (seq![datum] + items) =~= done.push(datum) + items);
                },
                Err(_) => {},
            }
        },
        Err(_) => {},
    }
}

/// Fields after `done`, from the field at `at` on: that field, then the
/// others.
proof fn lemma_fields_step(
    defs: Seq<TypeDef>,
    fields: Seq<Shape>,
    at: int,
    done: Seq<Datum>,
    bytes: Seq<u8>,
)
    requires
        0 <= at < fields.len(),
    ensures
        ({
            let first = decoding(defs, fields[at], bytes);
            let whole = prepend(done, parse_fields(defs, fields.skip(at), bytes, defs.len()));
            match first.outcome {
                Ok(datum) => whole == prepend(
                    done.push(datum),
                    parse_fields(defs, fields.skip(at + 1), first.rest, defs.len()),
                ),
                Err(error) => whole == Decoding::<Seq<Datum>>::failed(error, first.rest),
            }
        }),
{
    let first = decoding(defs, fields[at], bytes);
    lemma_parse_shape_rest(defs, fields[at], bytes, defs.len());
    assert(fields.skip(at)[0] == fields[at]);
    assert(fields.skip(at).skip(1) =~= fields.skip(at + 1));
    match first.outcome {
        Ok(datum) => {
            let later = parse_fields(defs, fields.skip(at + 1), first.rest, defs.len());
            match later.outcome {
                Ok(values) => {
                    assert(done + (seq![datum] + values) =~= done.push(datum) + values);
                },
                Err(_) => {},
            }
        },
        Err(_) => {},
    }
}

/// Entering a sequence of `count` elements comes to the decode of the
/// `count` elements.
pub proof fn lemma_enter_elements(
    defs: Seq<TypeDef>,
    stack: Seq<Waiting>,
    element: Shape,
    count: nat,
    growable: bool,
    bytes: Seq<u8>,
)
    requires
        stack_wf(defs, stack),
        element.resolves(defs.len()),
    ensures
        enter_elements(stack, element, count, growable).wf(defs),
        enter_elements(stack, element, count, growable).outlook(defs, bytes) == pursue(
            defs,
            stack,
            lift(
                parse_elements(defs, element, count, bytes, defs.len()),
                |items: Seq<Datum>| sequence_of(growable, items),
            ),
        ),
{
    let whole = parse_elements(defs, element, count, bytes, defs.len());
    if count > 0 {
        let frame = Waiting::Elements {
            element,
            left: (count - 1) as nat,
            done: Seq::empty(),
            growable,
        };
        lemma_elements_step(defs, element, (count - 1) as nat, Seq::empty(), bytes);
        lemma_prepend_nothing(whole);
        lemma_enter(
            defs,
            stack,
            frame,
            lift(whole, |items: Seq<Datum>| sequence_of(growable, items)),
            decoding(defs, element, bytes),
        );
    }
}

/// Entering fields comes to the decode of the fields.
pub proof fn lemma_enter_fields(
    defs: Seq<TypeDef>,
    stack: Seq<Waiting>,
    fields: Seq<Shape>,
    id: Option<u8>,
    bytes: Seq<u8>,
)
    requires
        stack_wf(defs, stack),
        fields_resolve(fields, defs.len()),
    ensures
        enter_fields(stack, fields, id).wf(defs),
        enter_fields(stack, fields, id).outlook(defs, bytes) == pursue(
            defs,
            stack,
            lift(
                parse_fields(defs, fields, bytes, defs.len()),
                |values: Seq<Datum>| aggregate_of(id, values),
            ),
        ),
{
    let whole = parse_fields(defs, fields, bytes, defs.len());
    if fields.len() > 0 {
        let frame = Waiting::Fields { fields, done: Seq::empty(), id };
        assert(fields.skip(0) =~= fields);
        lemma_fields_step(defs, fields, 0, Seq::empty(), bytes);
        lemma_prepend_nothing(whole);
        lemma_enter(
            defs,
            stack,
            frame,
            lift(whole, |values: Seq<Datum>| aggregate_of(id, values)),
            decoding(defs, fields[0], bytes),
        );
    }
}

/// Handing a complete part to the value that waits for it changes nothing in
/// what the decode comes to.
pub proof fn lemma_take(
    defs: Seq<TypeDef>,
    below: Seq<Waiting>,
    frame: Waiting,
    datum: Datum,
    bytes: Seq<u8>,
)
    requires
        stack_wf(defs, below),
        frame.wf(defs),
    ensures
        frame.take(below, datum).wf(defs),
        frame.take(below, datum).outlook(defs, bytes) == pursue(
            defs,
            below,
            frame.complete(defs, datum, bytes),
        ),
        pursue(defs, below.push(frame), Decoding::done(datum, bytes)) == pursue(
            defs,
            below,
            frame.complete(defs, datum, bytes),
        ),
{
    assert(below.push(frame).drop_last() =~= below);
    match frame {
        Waiting::Boxed => {},
        Waiting::Elements { element, left, done, growable } => {
            let more = done.push(datum);
            if left == 0 {
                assert(more + Seq::<Datum>::empty() =~= more);
            } else {
                let after = Waiting::Elements {
                    element,
                    left: (left - 1) as nat,
                    done: more,
                    growable,
                };
                lemma_elements_step(defs, element, (left - 1) as nat, more, bytes);
                lemma_enter(
                    defs,
                    below,
                    after,
                    frame.complete(defs, datum, bytes),
                    decoding(defs, element, bytes),
                );
            }
        },
        Waiting::Fields { fields, done, id } => {
            let more = done.push(datum);
            let at = done.len() as int + 1;
            if at == fields.len() {
                assert(fields.skip(at) =~= Seq::<Shape>::empty());
                assert(more + Seq::<Datum>::empty() =~= more);
            } else {
                let after = Waiting::Fields { fields, done: more, id };
                lemma_fields_step(defs, fields, at, more, bytes);
                lemma_enter(
                    defs,
                    below,
                    after,
                    frame.complete(defs, datum, bytes),
                    decoding(defs, fields[at], bytes),
                );
            }
        },
    }
}

/// The length of a text, once read, leaves the bytes of the text to decode.
proof fn lemma_feed_text_length(chunk: Seq<u8>, bytes: Seq<u8>)
    requires
        chunk.len() == 8,
    ensures
        lift(String::decoding(chunk + bytes), |text: Seq<char>| Datum::Text(text)) == (if be_value(
            chunk,
        ) == 0 {
            text_read(Seq::empty())
        } else {
            Activity::Text { left: be_value(chunk), units: Seq::empty() }
        }).current(Seq::empty(), bytes),
{
    let whole = chunk + bytes;
    let count = be_value(chunk);
    let raw = decode_elements::<u8>(bytes, count);
    assert(whole.take(8) =~= chunk);
    assert(whole.skip(8) =~= bytes);
    assert(Vec::<u8>::decoding(whole) == raw);
    match raw.outcome {
        Ok(later) => {
            assert(Seq::<u8>::empty() + later =~= later);
        },
        Err(_) => {},
    }
}

/// One byte of a text, once read, leaves the other bytes of the text to
/// decode.
proof fn lemma_feed_text_byte(left: nat, units: Seq<u8>, chunk: Seq<u8>, bytes: Seq<u8>)
    requires
        left >= 1,
        chunk.len() == 1,
    ensures
        text_tail(units, decode_elements::<u8>(chunk + bytes, left)) == (if left == 1 {
            text_read(units.push(chunk[0]))
        } else {
            Activity::Text { left: (left - 1) as nat, units: units.push(chunk[0]) }
        }).current(Seq::empty(), bytes),
{
    let byte = chunk[0];
    let whole = chunk + bytes;
    let front = whole.take(1);
    assert(front =~= seq![byte]);
    assert(front.drop_last() =~= Seq::<u8>::empty());
    assert(be_value(front.drop_last()) == 0);
    assert(be_value(front) == byte);
    assert(whole.skip(1) =~= bytes);
    let later = decode_elements::<u8>(bytes, (left - 1) as nat);
    assert(decode_elements::<u8>(whole, left) == prepend(seq![byte], later));
    assert(units.push(byte) =~= units + seq![byte]);
    match later.outcome {
        Ok(more) => {
            assert(units + (seq![byte] + more) =~= (units + seq![byte]) + more);
            assert((units + seq![byte]) + Seq::<u8>::empty() =~= units + seq![byte]);
        },
        Err(_) => {},
    }
}

/// How many moves without bytes a value of `shape` takes from its start, and
/// whether it is complete after them: if not, it needs bytes then.
pub open spec fn quiet_shape(defs: Seq<TypeDef>, shape: Shape, level: nat) -> (nat, bool)
    decreases level, 0nat, shape.height(), 0nat,
{
    match shape {
        Shape::Fixed(arity, element) => if arity == 0 {
            (1, true)
        } else {
            let inner = quiet_elements(defs, *element, arity as nat, level);
            (1 + inner.0, inner.1)
        },
        Shape::Boxed(inner) => {
            let held = quiet_shape(defs, *inner, level);
            (
                1 + held.0 + if held.1 {
                    1nat
                } else {
                    0nat
                },
                held.1,
            )
        },
        Shape::Named(index) => if index < level && index < defs.len() {
            match defs[index as int] {
                TypeDef::Product(fields) => if fields@.len() == 0 {
                    (1, true)
                } else {
                    let inner = quiet_fields(defs, fields@, index as nat);
                    (1 + inner.0, inner.1)
                },
                TypeDef::Sum(_) => (0, false),
            }
        } else {
            (0, false)
        },
        _ => (0, false),
    }
}

/// The moves without bytes of `count` elements in a row, from the start of
/// the first to the move that hands over the last.
pub open spec fn quiet_elements(defs: Seq<TypeDef>, element: Shape, count: nat, level: nat) -> (
    nat,
    bool,
)
    decreases level, 0nat, element.height(), 1nat,
{
    let each = quiet_shape(defs, element, level);
    if each.1 {
        (count * (each.0 + 1), true)
    } else {
        (each.0, false)
    }
}

/// The moves without bytes of fields in a row, from the start of the first
/// to the move that hands over the last.
pub open spec fn quiet_fields(defs: Seq<TypeDef>, fields: Seq<Shape>, level: nat) -> (nat, bool)
    decreases level, 1nat, fields.len(), 0nat,
{
    if fields.len() == 0 {
        (0, true)
    } else {
        let first = quiet_shape(defs, fields[0], level);
        if !first.1 {
            (first.0, false)
        } else if fields.len() == 1 {
            (first.0 + 1, true)
        } else {
            let others = quiet_fields(defs, fields.skip(1), level);
            (first.0 + 1 + others.0, others.1)
        }
    }
}

/// The moves without bytes that follow when a complete value is handed to
/// the top of the stack.
pub open spec fn quiet_return(defs: Seq<TypeDef>, stack: Seq<Waiting>) -> nat
    decreases stack.len(),
{
    if stack.len() == 0 {
        0
    } else {
        let below = quiet_return(defs, stack.drop_last());
        match stack.last() {
            Waiting::Boxed => 1 + below,
            Waiting::Elements { element, left, .. } => if left == 0 {
                1 + below
            } else {
                let others = quiet_elements(defs, element, left, defs.len());
                1 + others.0 + if others.1 {
                    below
                } else {
                    0
                }
            },
            Waiting::Fields { fields, done, .. } => if done.len() + 1 >= fields.len() {
                1 + below
            } else {
                let others = quiet_fields(defs, fields.skip(done.len() as int + 1), defs.len());
                1 + others.0 + if others.1 {
                    below
                } else {
                    0
                }
            },
        }
    }
}

impl Machine {
    /// How many moves without bytes the machine makes before it needs bytes
    /// or has finished.
    pub open spec fn quiet(self, defs: Seq<TypeDef>) -> nat {
        match self.activity {
            Activity::Start(shape) => {
                let inner = quiet_shape(defs, shape, defs.len());
                inner.0 + if inner.1 {
                    quiet_return(defs, self.stack)
                } else {
                    0
                }
            },
            Activity::Return(_) => quiet_return(defs, self.stack),
            _ => 0,
        }
    }
}

/// The level does not change the moves of a shape that is grounded at it.
pub proof fn lemma_quiet_shape_level(defs: Seq<TypeDef>, shape: Shape, level: nat)
    requires
        shape.resolves(defs.len()),
        shape.grounded(level),
        level <= defs.len(),
    ensures
        quiet_shape(defs, shape, level) == quiet_shape(defs, shape, defs.len()),
    decreases shape,
{
    match shape {
        Shape::Fixed(arity, element) => {
            element.lemma_resolves_grounded(defs.len());
            lemma_quiet_shape_level(defs, *element, level);
            assert(quiet_elements(defs, *element, arity as nat, level) == quiet_elements(
                defs,
                *element,
                arity as nat,
                defs.len(),
            ));
        },
        Shape::Boxed(inner) => {
            lemma_quiet_shape_level(defs, *inner, level);
        },
        _ => {},
    }
}

/// The level does not change the moves of fields that are grounded at it.
pub proof fn lemma_quiet_fields_level(defs: Seq<TypeDef>, fields: Seq<Shape>, level: nat)
    requires
        fields_resolve(fields, defs.len()),
        crate::grammar::fields_grounded(fields, level),
        level <= defs.len(),
    ensures
        quiet_fields(defs, fields, level) == quiet_fields(defs, fields, defs.len()),
    decreases fields.len(),
{
    if fields.len() > 0 {
        lemma_quiet_shape_level(defs, fields[0], level);
        if fields.len() > 1 {
            lemma_quiet_fields_level(defs, fields.skip(1), level);
        }
    }
}

/// Entering a sequence is one move, and the moves of its elements follow.
proof fn lemma_quiet_enter_elements(
    defs: Seq<TypeDef>,
    stack: Seq<Waiting>,
    element: Shape,
    count: nat,
    growable: bool,
)
    ensures
        ({
            let inner = quiet_elements(defs, element, count, defs.len());
            let before = if count == 0 {
                quiet_return(defs, stack)
            } else {
                inner.0 + if inner.1 {
                    quiet_return(defs, stack)
                } else {
                    0
                }
            };
            enter_elements(stack, element, count, growable).quiet(defs) == before
        }),
{
    if count > 0 {
        let each = quiet_shape(defs, element, defs.len());
        let frame = Waiting::Elements {
            element,
            left: (count - 1) as nat,
            done: Seq::empty(),
            growable,
        };
        assert(stack.push(frame).drop_last() =~= stack);
        if each.1 && count > 1 {
            assert(count * (each.0 + 1) == each.0 + 1 + (count - 1) * (each.0 + 1))
                by (nonlinear_arith);
        }
        if each.1 && count == 1 {
            assert(count * (each.0 + 1) == each.0 + 1) by (nonlinear_arith)
                requires
                    count == 1,
            ;
        }
    }
}

/// Entering fields is one move, and the moves of the fields follow.
proof fn lemma_quiet_enter_fields(
    defs: Seq<TypeDef>,
    stack: Seq<Waiting>,
    fields: Seq<Shape>,
    id: Option<u8>,
)
    ensures
        ({
            let inner = quiet_fields(defs, fields, defs.len());
            let before = if fields.len() == 0 {
                quiet_return(defs, stack)
            } else {
                inner.0 + if inner.1 {
                    quiet_return(defs, stack)
                } else {
                    0
                }
            };
            enter_fields(stack, fields, id).quiet(defs) == before
        }),
{
    if fields.len() > 0 {
        let frame = Waiting::Fields { fields, done: Seq::empty(), id };
        assert(stack.push(frame).drop_last() =~= stack);
        assert(fields.skip(Seq::<Datum>::empty().len() as int + 1) =~= fields.skip(1));
    }
}

/// Handing a value over is one move of those that follow a complete value.
proof fn lemma_quiet_take(defs: Seq<TypeDef>, below: Seq<Waiting>, frame: Waiting, datum: Datum)
    requires
        frame.wf(defs),
    ensures
        frame.take(below, datum).quiet(defs) + 1 == quiet_return(defs, below.push(frame)),
{
    assert(below.push(frame).drop_last() =~= below);
    match frame {
        Waiting::Boxed => {},
        Waiting::Elements { element, left, done, growable } => {
            if left > 0 {
                let each = quiet_shape(defs, element, defs.len());
                let after = Waiting::Elements {
                    element,
                    left: (left - 1) as nat,
                    done: done.push(datum),
                    growable,
                };
                assert(below.push(after).drop_last() =~= below);
                if each.1 && left > 1 {
                    assert(left * (each.0 + 1) == each.0 + 1 + (left - 1) * (each.0 + 1))
                        by (nonlinear_arith);
                }
                if each.1 && left == 1 {
                    assert(left * (each.0 + 1) == each.0 + 1) by (nonlinear_arith)
                        requires
                            left == 1,
                    ;
                }
            }
        },
        Waiting::Fields { fields, done, id } => {
            let at = done.len() as int + 1;
            if at < fields.len() {
                let after = Waiting::Fields { fields, done: done.push(datum), id };
                assert(below.push(after).drop_last() =~= below);
                assert(fields.skip(at)[0] == fields[at]);
                assert(fields.skip(at).skip(1) =~= fields.skip(at + 1));
            }
        },
    }
}

/// Every move without bytes that is due brings the machine nearer to the
/// point where it needs bytes or has finished.
pub proof fn lemma_advance_quiet(defs: Seq<TypeDef>, machine: Machine)
    requires
        well_formed(defs),
        machine.wf(defs),
        machine.needs(defs) == 0,
        !machine.finished(),
    ensures
        machine.advance(defs).quiet(defs) < machine.quiet(defs),
{
    let stack = machine.stack;
    match machine.activity {
        Activity::Start(shape) => {
            match shape {
                Shape::Fixed(arity, element) => {
                    lemma_quiet_enter_elements(defs, stack, *element, arity as nat, false);
                },
                Shape::Boxed(inner) => {
                    assert(stack.push(Waiting::Boxed).drop_last() =~= stack);
                },
                Shape::Named(index) => {
                    assert(definition_fault(defs, index as int) is None);
                    match defs[index as int] {
                        TypeDef::Product(fields) => {
                            lemma_quiet_fields_level(defs, fields@, index as nat);
                            lemma_quiet_enter_fields(defs, stack, fields@, None);
                        },
                        TypeDef::Sum(_) => {},
                    }
                },
                _ => {},
            }
        },
        Activity::Return(datum) => {
            assert(stack.drop_last().push(stack.last()) =~= stack);
            lemma_quiet_take(defs, stack.drop_last(), stack.last(), datum);
        },
        _ => {},
    }
}

} // verus!

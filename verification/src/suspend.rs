//! The suspendable decoder: the same byte grammar, decoded one read at a
//! time. The decoder never reads. It says how many bytes it needs next, is
//! given exactly those, and can be left alone between any two reads. Its
//! moves are those of the state machine that it stands for.

use vstd::prelude::*;
use crate::big_endian::{get_be, lemma_capacity_values};
use crate::derive::Codec;
use crate::grammar::{decoding, definition_fault, fields_resolve, well_formed};
use crate::machine::{
    enter_elements, enter_fields, lemma_advance, lemma_advance_quiet, lemma_enter_elements,
    lemma_enter_fields, lemma_feed, lemma_finished, lemma_start, lemma_starved, lemma_take,
    stack_wf, text_read, Activity, Machine, Waiting,
};
use crate::reader::{delivers, DecodeError, SliceReader};
use crate::scalar::Primitive;
use crate::shape::{Shape, TypeDef};
use crate::string_serialize::text_from_bytes;
use crate::value::{views, Datum, Value};

verus! {

/// A value that is being put together and waits for one of its parts.
enum Frame<'a> {
    Boxed,
    Elements { element: &'a Shape, left: u64, done: Vec<Value>, growable: bool },
    Fields { fields: &'a Vec<Shape>, done: Vec<Value>, id: Option<u8> },
}

/// What the decoder is at.
enum State<'a> {
    Start(&'a Shape),
    Text { left: u64, units: Vec<u8> },
    Return(Value),
    Failed(DecodeError),
}

impl<'a> Frame<'a> {
    spec fn model(self) -> Waiting {
        match self {
            Frame::Boxed => Waiting::Boxed,
            Frame::Elements { element, left, done, growable } => Waiting::Elements {
                element: *element,
                left: left as nat,
                done: views(done@),
                growable,
            },
            Frame::Fields { fields, done, id } => Waiting::Fields {
                fields: fields@,
                done: views(done@),
                id,
            },
        }
    }
}

impl<'a> State<'a> {
    spec fn model(self) -> Activity {
        match self {
            State::Start(shape) => Activity::Start(*shape),
            State::Text { left, units } => Activity::Text { left: left as nat, units: units@ },
            State::Return(value) => Activity::Return(value@),
            State::Failed(error) => Activity::Failed(error),
        }
    }
}

/// The values that wait, as the machine has them.
spec fn models(stack: Seq<Frame>) -> Seq<Waiting> {
    Seq::new(stack.len(), |i: int| stack[i].model())
}

/// A decode in progress. Its view is the state machine that it stands for.
pub struct Decoder<'a> {
    defs: &'a Vec<TypeDef>,
    stack: Vec<Frame<'a>>,
    state: State<'a>,
}

impl<'a> View for Decoder<'a> {
    type V = Machine;

    closed spec fn view(&self) -> Machine {
        Machine { stack: models(self.stack@), activity: self.state.model() }
    }
}

impl<'a> Decoder<'a> {
    #[verifier::type_invariant]
    spec fn wf(self) -> bool {
        well_formed(self.defs@) && self@.wf(self.defs@)
    }

    /// The definitions that the decoder decodes over.
    pub closed spec fn definitions(self) -> Seq<TypeDef> {
        self.defs@
    }

    /// A decoder at the start of a value of `shape`.
    pub fn new(codec: &'a Codec, shape: &'a Shape) -> (decoder: Self)
        requires
            shape.resolves(codec.definitions().len()),
        ensures
            decoder.definitions() == codec.definitions(),
            decoder@ == Machine::start(*shape),
            well_formed(decoder.definitions()),
            decoder@.wf(decoder.definitions()),
    {
        let defs = codec.defs();
        let stack: Vec<Frame<'a>> = Vec::new();
        assert(models(stack@) =~= Seq::<Waiting>::empty());
        Decoder { defs, stack, state: State::Start(shape) }
    }

    /// How many bytes to read and give to `feed` next. None, when the decoder
    /// can go on without them or has finished.
    pub fn wants(&self) -> (count: usize)
        ensures
            count == self@.needs(self.definitions()),
    {
        proof {
            use_type_invariant(self);
        }
        match &self.state {
            State::Start(shape) => match shape {
                Shape::Scalar(kind) => kind.width(),
                Shape::Text => 8,
                Shape::Growable(_) => 8,
                Shape::Named(index) => match &self.defs[*index] {
                    TypeDef::Sum(_) => 1,
                    TypeDef::Product(_) => 0,
                },
                _ => 0,
            },
            State::Text { .. } => 1,
            _ => 0,
        }
    }

    /// Whether the decode has come to its value or to a failure.
    pub fn is_finished(&self) -> (answer: bool)
        ensures
            answer == self@.finished(),
    {
        match &self.state {
            State::Return(_) => self.stack.len() == 0,
            State::Failed(_) => true,
            _ => false,
        }
    }

    /// The value or the failure of a decode that has finished.
    pub fn finish(self) -> (result: Result<Value, DecodeError>)
        requires
            self@.finished(),
        ensures
            delivers(result, self@.result()),
    {
        match self.state {
            State::Return(value) => Ok(value),
            State::Failed(error) => Err(error),
            _ => Err(DecodeError::UnexpectedEof),
        }
    }

    /// Runs the decode to its end over a source in memory: makes the moves
    /// that are due and reads what the decoder asks for, until the decode has
    /// finished or the source has too few bytes left. The run comes to what
    /// the decode came to before it, on the bytes of the source.
    pub fn run(self, reader: &mut SliceReader) -> (result: Result<Value, DecodeError>)
        ensures
            final(reader)@ == self@.outlook(self.definitions(), old(reader)@).rest,
            delivers(result, self@.outlook(self.definitions(), old(reader)@).outcome),
    {
        proof {
            use_type_invariant(&self);
        }
        let ghost defs = self.definitions();
        let ghost goal = self@.outlook(defs, reader@);
        let mut decoder = self;
        while !decoder.is_finished()
            invariant
                defs == self.definitions(),
                goal == self@.outlook(defs, old(reader)@),
                decoder.definitions() == defs,
                well_formed(defs),
                decoder@.wf(defs),
                decoder@.outlook(defs, reader@) == goal,
            decreases reader@.len(), decoder@.quiet(defs),
        {
            let ghost machine = decoder@;
            let ghost before = reader@;
            let count = decoder.wants();
            if count == 0 {
                proof {
                    lemma_advance(defs, machine, before);
                    lemma_advance_quiet(defs, machine);
                }
                decoder = decoder.advance();
            } else {
                match reader.read_exact(count) {
                    Ok(chunk) => {
                        proof {
                            lemma_feed(defs, machine, chunk@, reader@);
                            assert(chunk@ + reader@ =~= before);
                        }
                        decoder = decoder.feed(chunk);
                    },
                    Err(error) => {
                        proof {
                            lemma_starved(defs, machine, before);
                        }
                        return Err(error);
                    },
                }
            }
        }
        proof {
            lemma_finished(defs, decoder@, reader@);
        }
        decoder.finish()
    }

    /// Makes the move that needs no bytes, where one is due.
    pub fn advance(self) -> (next: Self)
        ensures
            next.definitions() == self.definitions(),
            next@ == self@.advance(self.definitions()),
            well_formed(next.definitions()),
            next@.wf(next.definitions()),
    {
        proof {
            use_type_invariant(&self);
        }
        let Decoder { defs, stack, state } = self;
        let next = match state {
            State::Start(shape) => match shape {
                Shape::Fixed(arity, element) => start_elements(
                    defs,
                    stack,
                    element,
                    *arity as u64,
                    false,
                ),
                Shape::Boxed(inner) => {
                    let ghost waiting = models(stack@);
                    let mut stack = stack;
                    stack.push(Frame::Boxed);
                    assert(models(stack@) =~= waiting.push(Waiting::Boxed));
                    Decoder { defs, stack, state: State::Start(inner) }
                },
                Shape::Named(index) => {
                    assert(definition_fault(defs@, *index as int) is None);
                    match &defs[*index] {
                        TypeDef::Product(fields) => start_fields(defs, stack, fields, None),
                        TypeDef::Sum(_) => Decoder { defs, stack, state: State::Start(shape) },
                    }
                },
                _ => Decoder { defs, stack, state: State::Start(shape) },
            },
            State::Return(value) => {
                let ghost waiting = models(stack@);
                let mut stack = stack;
                match stack.pop() {
                    None => Decoder { defs, stack, state: State::Return(value) },
                    Some(frame) => {
                        assert(frame.model() == waiting.last());
                        assert(models(stack@) =~= waiting.drop_last());
                        hand_over(defs, stack, frame, value)
                    },
                }
            },
            other => Decoder { defs, stack, state: other },
        };
        proof {
            use_type_invariant(&next);
        }
        next
    }

    /// Takes the bytes that were asked for.
    pub fn feed(self, chunk: &[u8]) -> (next: Self)
        requires
            self@.needs(self.definitions()) > 0,
            chunk@.len() == self@.needs(self.definitions()),
        ensures
            next.definitions() == self.definitions(),
            next@ == self@.feed(self.definitions(), chunk@),
            well_formed(next.definitions()),
            next@.wf(next.definitions()),
    {
        proof {
            use_type_invariant(&self);
            lemma_capacity_values();
        }
        let Decoder { defs, stack, state } = self;
        let next = match state {
            State::Start(shape) => match shape {
                Shape::Scalar(kind) => {
                    let mut reader = SliceReader::new(chunk);
                    let state = match Primitive::deserialize(*kind, &mut reader) {
                        Ok(scalar) => State::Return(Value::Scalar(scalar)),
                        Err(error) => State::Failed(error),
                    };
                    Decoder { defs, stack, state }
                },
                Shape::Text => {
                    let count = get_be(chunk) as u64;
                    let units: Vec<u8> = Vec::new();
                    if count == 0 {
                        read_text(defs, stack, units)
                    } else {
                        Decoder { defs, stack, state: State::Text { left: count, units } }
                    }
                },
                Shape::Growable(element) => start_elements(
                    defs,
                    stack,
                    element,
                    get_be(chunk) as u64,
                    true,
                ),
                Shape::Named(index) => {
                    assert(definition_fault(defs@, *index as int) is None);
                    match &defs[*index] {
                        TypeDef::Sum(variants) => {
                            let id = chunk[0];
                            if id as usize >= variants.len() {
                                let error = DecodeError::InvalidDiscriminant { found: id };
                                Decoder { defs, stack, state: State::Failed(error) }
                            } else {
                                start_fields(defs, stack, &variants[id as usize], Some(id))
                            }
                        },
                        TypeDef::Product(_) => Decoder { defs, stack, state: State::Start(shape) },
                    }
                },
                _ => Decoder { defs, stack, state: State::Start(shape) },
            },
            State::Text { left, units } => {
                let mut units = units;
                units.push(chunk[0]);
                if left == 1 {
                    read_text(defs, stack, units)
                } else {
                    Decoder { defs, stack, state: State::Text { left: left - 1, units } }
                }
            },
            other => Decoder { defs, stack, state: other },
        };
        proof {
            use_type_invariant(&next);
        }
        next
    }
}

/// Reads one value of `shape` from `reader` with the suspendable decoder. It
/// gives what the blocking decode gives, and takes the same bytes.
pub fn deserialize(codec: &Codec, shape: &Shape, reader: &mut SliceReader) -> (result: Result<
    Value,
    DecodeError,
>)
    requires
        shape.resolves(codec.definitions().len()),
    ensures
        final(reader)@ == decoding(codec.definitions(), *shape, old(reader)@).rest,
        delivers(result, decoding(codec.definitions(), *shape, old(reader)@).outcome),
{
    proof {
        lemma_start(codec.definitions(), *shape, reader@);
    }
    Decoder::new(codec, shape).run(reader)
}

/// Enters a sequence of `count` elements.
fn start_elements<'a>(
    defs: &'a Vec<TypeDef>,
    stack: Vec<Frame<'a>>,
    element: &'a Shape,
    count: u64,
    growable: bool,
) -> (next: Decoder<'a>)
    requires
        well_formed(defs@),
        stack_wf(defs@, models(stack@)),
        element.resolves(defs@.len()),
    ensures
        next.definitions() == defs@,
        next@ == enter_elements(models(stack@), *element, count as nat, growable),
{
    let ghost waiting = models(stack@);
    let done: Vec<Value> = Vec::new();
    proof {
        assert(views(done@) =~= Seq::<Datum>::empty());
        lemma_enter_elements(defs@, waiting, *element, count as nat, growable, Seq::empty());
    }
    if count == 0 {
        let whole = if growable {
            Value::Growable(done)
        } else {
            Value::Fixed(done)
        };
        Decoder { defs, stack, state: State::Return(whole) }
    } else {
        let frame = Frame::Elements { element, left: count - 1, done, growable };
        let mut stack = stack;
        stack.push(frame);
        assert(models(stack@) =~= waiting.push(frame.model()));
        Decoder { defs, stack, state: State::Start(element) }
    }
}

/// Enters the fields of a product or, with a discriminant, of a variant.
fn start_fields<'a>(
    defs: &'a Vec<TypeDef>,
    stack: Vec<Frame<'a>>,
    fields: &'a Vec<Shape>,
    id: Option<u8>,
) -> (next: Decoder<'a>)
    requires
        well_formed(defs@),
        stack_wf(defs@, models(stack@)),
        fields_resolve(fields@, defs@.len()),
    ensures
        next.definitions() == defs@,
        next@ == enter_fields(models(stack@), fields@, id),
{
    let ghost waiting = models(stack@);
    let done: Vec<Value> = Vec::new();
    proof {
        assert(views(done@) =~= Seq::<Datum>::empty());
        lemma_enter_fields(defs@, waiting, fields@, id, Seq::empty());
    }
    if fields.len() == 0 {
        let whole = match id {
            Some(id) => Value::Variant(id, done),
            None => Value::Product(done),
        };
        Decoder { defs, stack, state: State::Return(whole) }
    } else {
        let frame = Frame::Fields { fields, done, id };
        let mut stack = stack;
        stack.push(frame);
        assert(models(stack@) =~= waiting.push(frame.model()));
        Decoder { defs, stack, state: State::Start(&fields[0]) }
    }
}

/// Hands a complete value to the value that waits for it on top of `stack`.
fn hand_over<'a>(
    defs: &'a Vec<TypeDef>,
    stack: Vec<Frame<'a>>,
    frame: Frame<'a>,
    value: Value,
) -> (next: Decoder<'a>)
    requires
        well_formed(defs@),
        stack_wf(defs@, models(stack@)),
        frame.model().wf(defs@),
    ensures
        next.definitions() == defs@,
        next@ == frame.model().take(models(stack@), value@),
{
    let ghost waiting = models(stack@);
    proof {
        lemma_take(defs@, waiting, frame.model(), value@, Seq::empty());
    }
    match frame {
        Frame::Boxed => Decoder { defs, stack, state: State::Return(Value::Boxed(Box::new(value))) },
        Frame::Elements { element, left, done, growable } => {
            let ghost earlier = views(done@);
            let mut done = done;
            done.push(value);
            assert(views(done@) =~= earlier.push(value@));
            if left == 0 {
                let whole = if growable {
                    Value::Growable(done)
                } else {
                    Value::Fixed(done)
                };
                Decoder { defs, stack, state: State::Return(whole) }
            } else {
                let after = Frame::Elements { element, left: left - 1, done, growable };
                let mut stack = stack;
                stack.push(after);
                assert(models(stack@) =~= waiting.push(after.model()));
                Decoder { defs, stack, state: State::Start(element) }
            }
        },
        Frame::Fields { fields, done, id } => {
            let ghost earlier = views(done@);
            let mut done = done;
            done.push(value);
            assert(views(done@) =~= earlier.push(value@));
            if done.len() == fields.len() {
                let whole = match id {
                    Some(id) => Value::Variant(id, done),
                    None => Value::Product(done),
                };
                Decoder { defs, stack, state: State::Return(whole) }
            } else {
                let following = &fields[done.len()];
                let after = Frame::Fields { fields, done, id };
                let mut stack = stack;
                stack.push(after);
                assert(models(stack@) =~= waiting.push(after.model()));
                Decoder { defs, stack, state: State::Start(following) }
            }
        },
    }
}

/// Comes to the text whose bytes have all been read, or to the failure that
/// they are not UTF-8.
fn read_text<'a>(defs: &'a Vec<TypeDef>, stack: Vec<Frame<'a>>, units: Vec<u8>) -> (next: Decoder<
    'a,
>)
    requires
        well_formed(defs@),
        stack_wf(defs@, models(stack@)),
    ensures
        next.definitions() == defs@,
        next@ == (Machine { stack: models(stack@), activity: text_read(units@) }),
{
    let state = match text_from_bytes(units) {
        Ok(text) => State::Return(Value::Text(text)),
        Err(error) => State::Failed(error),
    };
    Decoder { defs, stack, state }
}

} // verus!

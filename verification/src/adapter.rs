use vstd::prelude::*;
use crate::events::{Ev, Event, events_view};

verus! {

/// One raw token from the underlying pull parser, reduced to what the event
/// adapter reads: an element opened or closed (with its local name), the end
/// of the document, a parse failure (with its message), or any other token
/// kind, which the adapter drops.
pub enum RawToken {
    Start(String),
    End(String),
    Finished,
    Failed(String),
    Skipped,
}

impl Clone for RawToken {
    fn clone(&self) -> (r: RawToken)
        ensures
            r == self,
    {
        match self {
            RawToken::Start(name) => RawToken::Start(name.clone()),
            RawToken::End(name) => RawToken::End(name.clone()),
            RawToken::Finished => RawToken::Finished,
            RawToken::Failed(msg) => RawToken::Failed(msg.clone()),
            RawToken::Skipped => RawToken::Skipped,
        }
    }
}

/// A token that ends the stream: the document end, or a failure, which is
/// recovered by truncation rather than propagated.
pub open spec fn is_terminal(t: RawToken) -> bool {
    t is Finished || t is Failed
}

/// What the adapter makes of a token sequence: element tokens become events,
/// other tokens are dropped, and the first terminal token cuts the sequence
/// short.
pub open spec fn adapt_spec(ts: Seq<RawToken>) -> Seq<Ev>
    decreases ts.len(),
{
    if ts.len() == 0 {
        Seq::empty()
    } else {
        match ts[0] {
            RawToken::Start(name) => seq![Ev::Open(name@)] + adapt_spec(ts.skip(1)),
            RawToken::End(name) => seq![Ev::Close(name@)] + adapt_spec(ts.skip(1)),
            RawToken::Finished => Seq::empty(),
            RawToken::Failed(_) => Seq::empty(),
            RawToken::Skipped => adapt_spec(ts.skip(1)),
        }
    }
}

/// Normalize a raw token sequence into open/close events: a pure filter and
/// mapper, truncating at the first terminal token.
pub fn adapt(tokens: Vec<RawToken>) -> (events: Vec<Event>)
    ensures
        events_view(events@) == adapt_spec(tokens@),
{
    let mut out: Vec<Event> = Vec::new();
    proof {
        assert(tokens@.skip(0) =~= tokens@);
        assert(events_view(out@) + adapt_spec(tokens@) =~= adapt_spec(tokens@));
    }
    let n = tokens.len();
    let mut i: usize = 0;
    while i < n
        invariant
            n == tokens@.len(),
            i <= n,
            adapt_spec(tokens@) == events_view(out@) + adapt_spec(tokens@.skip(i as int)),
        decreases n - i,
    {
        let ghost pre = out@;
        proof {
            assert(tokens@.skip(i as int).len() > 0);
            assert(tokens@.skip(i as int)[0] == tokens@[i as int]);
            assert(tokens@.skip(i as int).skip(1) =~= tokens@.skip(i + 1));
        }
        let t = tokens[i].clone();
        match t {
            RawToken::Start(name) => {
                let ghost nv = name@;
                out.push(Event::Open(name));
                proof {
                    assert(events_view(out@) =~= events_view(pre).push(Ev::Open(nv)));
                    assert(adapt_spec(tokens@.skip(i as int)) == seq![Ev::Open(nv)] + adapt_spec(
                        tokens@.skip(i + 1),
                    ));
                    assert(events_view(pre) + adapt_spec(tokens@.skip(i as int)) =~= events_view(
                        out@,
                    ) + adapt_spec(tokens@.skip(i + 1)));
                }
            },
            RawToken::End(name) => {
                let ghost nv = name@;
                out.push(Event::Close(name));
                proof {
                    assert(events_view(out@) =~= events_view(pre).push(Ev::Close(nv)));
                    assert(adapt_spec(tokens@.skip(i as int)) == seq![Ev::Close(nv)] + adapt_spec(
                        tokens@.skip(i + 1),
                    ));
                    assert(events_view(pre) + adapt_spec(tokens@.skip(i as int)) =~= events_view(
                        out@,
                    ) + adapt_spec(tokens@.skip(i + 1)));
                }
            },
            RawToken::Finished => {
                proof {
                    assert(adapt_spec(tokens@.skip(i as int)) =~= Seq::<Ev>::empty());
                    assert(events_view(out@) + Seq::<Ev>::empty() =~= events_view(out@));
                }
                return out;
            },
            RawToken::Failed(_) => {
                proof {
                    assert(adapt_spec(tokens@.skip(i as int)) =~= Seq::<Ev>::empty());
                    assert(events_view(out@) + Seq::<Ev>::empty() =~= events_view(out@));
                }
                return out;
            },
            RawToken::Skipped => {
                proof {
                    assert(adapt_spec(tokens@.skip(i as int)) == adapt_spec(tokens@.skip(i + 1)));
                }
            },
        }
        i += 1;
    }
    proof {
        assert(tokens@.skip(n as int) =~= Seq::<RawToken>::empty());
        assert(events_view(out@) + Seq::<Ev>::empty() =~= events_view(out@));
    }
    out
}

/// An opaque carrier for the pull parser of the xml crate, which Verus
/// cannot see into (its type is generic over a byte source trait that has no
/// specification here).
#[verifier::external_body]
struct TokenSource<'a> {
    reader: xml::reader::EventReader<&'a [u8]>,
}

/// Relies on xml::reader::EventReader::new: a pull parser over the given
/// byte source, positioned before the first token.
#[verifier::external_body]
fn source_from_bytes<'a>(data: &'a [u8]) -> (src: TokenSource<'a>) {
    TokenSource { reader: xml::reader::EventReader::new(data) }
}

/// Relies on xml::reader::EventReader::next: pulls the next parse event from
/// the stream, or an error, or the end of the document.  Each outcome is
/// converted to the corresponding raw token; element names are reduced to
/// their local name.  Nothing is promised of the result: it depends on the
/// reader's internal position, which is opaque here.
#[verifier::external_body]
fn pull_token<'a>(src: &mut TokenSource<'a>) -> (t: RawToken) {
    match src.reader.next() {
        Ok(xml::reader::XmlEvent::StartElement { name, .. }) => RawToken::Start(name.local_name),
        Ok(xml::reader::XmlEvent::EndElement { name, .. }) => RawToken::End(name.local_name),
        Ok(xml::reader::XmlEvent::EndDocument) => RawToken::Finished,
        Ok(_) => RawToken::Skipped,
        Err(e) => RawToken::Failed(e.to_string()),
    }
}

/// Tokenize a byte buffer: pull raw tokens until the document ends, a
/// failure truncates the stream, or a generous token budget (more tokens
/// than a document of this size can yield) runs out.  Only the last token
/// pulled can be a terminal one.
pub fn tokens_from_bytes(data: &Vec<u8>) -> (toks: Vec<RawToken>)
    ensures
        forall|i: int| 0 <= i < toks@.len() - 1 ==> !is_terminal(#[trigger] toks@[i]),
{
    let mut source = source_from_bytes(data.as_slice());
    let mut toks: Vec<RawToken> = Vec::new();
    let mut remaining: usize = if data.len() > usize::MAX - 16 {
        usize::MAX
    } else {
        data.len() + 16
    };
    let mut stopped = false;
    while !stopped && remaining > 0
        invariant
            forall|i: int| 0 <= i < toks@.len() - 1 ==> !is_terminal(#[trigger] toks@[i]),
            !stopped ==> (toks@.len() == 0 || !is_terminal(toks@.last())),
        decreases remaining,
    {
        let t = pull_token(&mut source);
        let term = match &t {
            RawToken::Finished => true,
            RawToken::Failed(_) => true,
            _ => false,
        };
        toks.push(t);
        if term {
            stopped = true;
        }
        remaining -= 1;
    }
    toks
}

/// Read a whole byte buffer into a normalized event sequence: tokenization
/// is the pull parser's work; the filtering itself is `adapt`, so the result
/// is the adapted form of some token sequence with a terminal token at most
/// at its end.
pub fn events_from_bytes(data: &Vec<u8>) -> (events: Vec<Event>)
    ensures
        exists|ts: Seq<RawToken>|
            (forall|i: int| 0 <= i < ts.len() - 1 ==> !is_terminal(#[trigger] ts[i]))
                && events_view(events@) == adapt_spec(ts),
{
    let toks = tokens_from_bytes(data);
    let ghost tv = toks@;
    let events = adapt(toks);
    proof {
        assert((forall|i: int| 0 <= i < tv.len() - 1 ==> !is_terminal(#[trigger] tv[i]))
            && events_view(events@) == adapt_spec(tv));
    }
    events
}

} // verus!

//! The AtAt key-value format: `@key@ value @@`, where the first `@` of the key
//! stands at the start of a line and the value ends at two `@` in a row.
//!
//! The parser is incremental: it is fed the input in chunks, in order, and keeps
//! its state from one chunk to the next.

use vstd::prelude::*;
use vstd::slice::slice_to_vec;
use vstd::utf8::{decode_utf8, valid_utf8};
use crate::text::{from_utf8_lossy, lemma_trim_idem, trim, trim_str, utf8_lossy};

verus! {

/// line feed
pub const LF: u8 = 10;

/// carriage return
pub const CR: u8 = 13;

/// the '@' character
pub const AT: u8 = 64;

/// Type returned from AtAt parsing.
pub enum AtAtParseItem {
    /// We parsed out a key-value item.
    KeyValue(String, String),
    /// Raw data passing through the parser.
    Data(Vec<u8>),
}

/// What an [`AtAtParseItem`] holds, as plain values.
pub enum AtAtItemView {
    /// A key and a value.
    KeyValue(Seq<char>, Seq<char>),
    /// Raw data.
    Data(Seq<u8>),
}

impl View for AtAtParseItem {
    type V = AtAtItemView;

    open spec fn view(&self) -> AtAtItemView {
        match self {
            AtAtParseItem::KeyValue(k, v) => AtAtItemView::KeyValue(k@, v@),
            AtAtParseItem::Data(d) => AtAtItemView::Data(d@),
        }
    }
}

/// The scanner's state, as plain values.
pub enum Scan {
    /// in the middle of a line
    Waiting,
    /// at the start of a line: an '@' here opens a key
    LineStart,
    /// after the opening '@': gathering the key
    GatherName(Seq<u8>),
    /// after the second '@': gathering the value
    GatherValue(Seq<u8>, Seq<u8>),
    /// one '@' seen after the value; another one ends the item
    FirstAt(Seq<u8>, Seq<u8>),
}

/// The state after reading `c` in state `s`.
pub open spec fn step(s: Scan, c: u8) -> Scan {
    match s {
        Scan::Waiting => if c == LF || c == CR { Scan::LineStart } else { Scan::Waiting },
        Scan::LineStart => if c == AT {
            Scan::GatherName(seq![])
        } else if c == LF || c == CR {
            Scan::LineStart
        } else {
            Scan::Waiting
        },
        Scan::GatherName(name) => if c == AT {
            Scan::GatherValue(name, seq![])
        } else {
            Scan::GatherName(name.push(c))
        },
        Scan::GatherValue(name, value) => if c == AT {
            Scan::FirstAt(name, value)
        } else {
            Scan::GatherValue(name, value.push(c))
        },
        Scan::FirstAt(name, value) => if c == AT {
            Scan::Waiting
        } else {
            // a lone '@' belongs to the value, and so does the byte after it
            Scan::GatherValue(name, value.push(AT).push(c))
        },
    }
}

/// The raw key and value completed by reading `c` in state `s`, if any.
pub open spec fn step_pair(s: Scan, c: u8) -> Option<(Seq<u8>, Seq<u8>)> {
    match s {
        Scan::FirstAt(name, value) => if c == AT { Some((name, value)) } else { None },
        _ => None,
    }
}

/// The state after reading `bytes` from state `s`.
pub open spec fn scan(s: Scan, bytes: Seq<u8>) -> Scan
    decreases bytes.len(),
{
    if bytes.len() == 0 {
        s
    } else {
        step(scan(s, bytes.drop_last()), bytes.last())
    }
}

/// The raw keys and values completed, in order, while reading `bytes` from state `s`.
pub open spec fn scan_pairs(s: Scan, bytes: Seq<u8>) -> Seq<(Seq<u8>, Seq<u8>)>
    decreases bytes.len(),
{
    if bytes.len() == 0 {
        seq![]
    } else {
        let before = scan_pairs(s, bytes.drop_last());
        match step_pair(scan(s, bytes.drop_last()), bytes.last()) {
            Some(kv) => before.push(kv),
            None => before,
        }
    }
}

/// The text that lossy decoding makes of `raw`: the decoded text where `raw` is
/// valid UTF-8.
pub open spec fn decoded_text(raw: Seq<u8>) -> Seq<char> {
    if valid_utf8(raw) {
        decode_utf8(raw)
    } else {
        utf8_lossy(raw)
    }
}

/// The text of a raw key or value: lossily decoded, then trimmed.
pub open spec fn atat_text(raw: Seq<u8>) -> Seq<char> {
    trim(decoded_text(raw))
}

/// The item reported for a completed raw key and value.
pub open spec fn pair_item(kv: (Seq<u8>, Seq<u8>)) -> AtAtItemView {
    AtAtItemView::KeyValue(atat_text(kv.0), atat_text(kv.1))
}

/// The items reported for one chunk read from state `s`: the chunk itself,
/// then each key-value item that the chunk completes.
pub open spec fn chunk_items(s: Scan, chunk: Seq<u8>) -> Seq<AtAtItemView> {
    seq![AtAtItemView::Data(chunk)] + scan_pairs(s, chunk).map_values(
        |kv: (Seq<u8>, Seq<u8>)| pair_item(kv),
    )
}


/// Chunking law: reading `a` and then `b` ends in the same state, and completes the
/// same key-value items in the same order, as reading `a + b` at once. So the items
/// that the parser reports do not depend on how its input is split into chunks.
pub proof fn law_chunking(s: Scan, a: Seq<u8>, b: Seq<u8>)
    ensures
        scan(s, a + b) == scan(scan(s, a), b),
        scan_pairs(s, a + b) == scan_pairs(s, a) + scan_pairs(scan(s, a), b),
    decreases b.len(),
{
    if b.len() == 0 {
        assert(a + b =~= a);
        assert(scan_pairs(s, a) + scan_pairs(scan(s, a), b) =~= scan_pairs(s, a));
    } else {
        assert((a + b).drop_last() =~= a + b.drop_last());
        assert((a + b).last() == b.last());
        law_chunking(s, a, b.drop_last());
        let mid = scan(s, a);
        match step_pair(scan(mid, b.drop_last()), b.last()) {
            Some(kv) => {
                assert(scan_pairs(s, a + b) =~= scan_pairs(s, a) + scan_pairs(mid, b));
            },
            None => {
                assert(scan_pairs(s, a + b) =~= scan_pairs(s, a) + scan_pairs(mid, b));
            },
        }
    }
}

/// The state reached by reading the chunks `cs` one after another from `s`, as a
/// parser does over a sequence of calls.
pub open spec fn chunks_state(s: Scan, cs: Seq<Seq<u8>>) -> Scan
    decreases cs.len(),
{
    if cs.len() == 0 {
        s
    } else {
        scan(chunks_state(s, cs.drop_last()), cs.last())
    }
}

/// The raw keys and values completed, in order, over the chunks `cs` read one after
/// another from `s`: what a parser reports over a sequence of calls, after the data items.
pub open spec fn chunks_pairs(s: Scan, cs: Seq<Seq<u8>>) -> Seq<(Seq<u8>, Seq<u8>)>
    decreases cs.len(),
{
    if cs.len() == 0 {
        seq![]
    } else {
        chunks_pairs(s, cs.drop_last()) + scan_pairs(chunks_state(s, cs.drop_last()), cs.last())
    }
}

/// The chunks `cs` joined into one stream of bytes.
pub open spec fn joined(cs: Seq<Seq<u8>>) -> Seq<u8>
    decreases cs.len(),
{
    if cs.len() == 0 {
        seq![]
    } else {
        joined(cs.drop_last()) + cs.last()
    }
}

/// Reading any number of chunks one after another ends in the state, and completes
/// the key-value items, of reading their concatenation at once.
pub proof fn law_many_chunks(s: Scan, cs: Seq<Seq<u8>>)
    ensures
        chunks_state(s, cs) == scan(s, joined(cs)),
        chunks_pairs(s, cs) == scan_pairs(s, joined(cs)),
    decreases cs.len(),
{
    if cs.len() == 0 {
        assert(scan_pairs(s, Seq::<u8>::empty()) =~= Seq::<(Seq<u8>, Seq<u8>)>::empty());
    } else {
        law_many_chunks(s, cs.drop_last());
        law_chunking(s, joined(cs.drop_last()), cs.last());
    }
}

/// Two splittings of one byte stream into chunks give the same key-value items, in
/// the same order, and end in the same state.
pub proof fn law_chunkings_agree(s: Scan, cs1: Seq<Seq<u8>>, cs2: Seq<Seq<u8>>)
    requires
        joined(cs1) == joined(cs2),
    ensures
        chunks_pairs(s, cs1) == chunks_pairs(s, cs2),
        chunks_state(s, cs1) == chunks_state(s, cs2),
{
    law_many_chunks(s, cs1);
    law_many_chunks(s, cs2);
}

/// Only "@@" ends a value: a lone '@' inside a value, and the byte after it, stay
/// in the value, and no item is completed.
pub proof fn law_lone_at_kept(name: Seq<u8>, value: Seq<u8>, c: u8)
    requires
        c != AT,
    ensures
        scan(Scan::GatherValue(name, value), seq![AT, c]) == Scan::GatherValue(
            name,
            value + seq![AT, c],
        ),
        scan_pairs(Scan::GatherValue(name, value), seq![AT, c]) == Seq::<
            (Seq<u8>, Seq<u8>),
        >::empty(),
{
    let s = Scan::GatherValue(name, value);
    lemma_one(s, AT);
    lemma_one(Scan::FirstAt(name, value), c);
    law_chunking(s, seq![AT], seq![c]);
    assert(seq![AT] + seq![c] =~= seq![AT, c]);
    assert(value.push(AT).push(c) =~= value + seq![AT, c]);
    assert(Seq::<(Seq<u8>, Seq<u8>)>::empty() + Seq::<(Seq<u8>, Seq<u8>)>::empty() =~= Seq::<
        (Seq<u8>, Seq<u8>),
    >::empty());
}

/// Whether the key being gathered in `s`, if any, holds no '@'.
pub open spec fn key_clean(s: Scan) -> bool {
    match s {
        Scan::GatherName(n) => !n.contains(AT),
        Scan::GatherValue(n, _) => !n.contains(AT),
        Scan::FirstAt(n, _) => !n.contains(AT),
        _ => true,
    }
}

proof fn lemma_step_clean(s: Scan, c: u8)
    requires
        key_clean(s),
    ensures
        key_clean(step(s, c)),
{
    match s {
        Scan::GatherName(n) => {
            if c != AT {
                assert forall|k: int| 0 <= k < n.push(c).len() implies n.push(c)[k] != AT by {
                    if k < n.len() {
                        assert(n.push(c)[k] == n[k]);
                    }
                }
            }
        },
        _ => {},
    }
}

/// Whether an item is a key and a value that are their own trim, with a key
/// without '@' (or is raw data).
pub open spec fn clean_item(it: AtAtItemView) -> bool {
    match it {
        AtAtItemView::KeyValue(k, v) => trim(k) == k && trim(v) == v && !k.contains('@'),
        AtAtItemView::Data(_) => true,
    }
}

proof fn lemma_one(s: Scan, c: u8)
    ensures
        scan(s, seq![c]) == step(s, c),
        scan_pairs(s, seq![c]) == match step_pair(s, c) {
            Some(kv) => seq![kv],
            None => Seq::<(Seq<u8>, Seq<u8>)>::empty(),
        },
{
    assert(seq![c].drop_last() =~= Seq::<u8>::empty());
    assert(seq![c].last() == c);
    assert(scan(s, Seq::<u8>::empty()) == s);
    assert(scan_pairs(s, Seq::<u8>::empty()) =~= Seq::<(Seq<u8>, Seq<u8>)>::empty());
    match step_pair(s, c) {
        Some(kv) => {
            assert(Seq::<(Seq<u8>, Seq<u8>)>::empty().push(kv) =~= seq![kv]);
        },
        None => {},
    }
}

proof fn lemma_gather_name(p: Seq<u8>, name: Seq<u8>)
    requires
        !name.contains(AT),
    ensures
        scan(Scan::GatherName(p), name) == Scan::GatherName(p + name),
        scan_pairs(Scan::GatherName(p), name) == Seq::<(Seq<u8>, Seq<u8>)>::empty(),
    decreases name.len(),
{
    if name.len() == 0 {
        assert(p + name =~= p);
    } else {
        let init = name.drop_last();
        assert(!init.contains(AT)) by {
            if init.contains(AT) {
                let k = choose|k: int| 0 <= k < init.len() && init[k] == AT;
                assert(name[k] == AT);
            }
        }
        assert(name.last() != AT) by {
            assert(name[name.len() - 1] == name.last());
        }
        lemma_gather_name(p, init);
        assert((p + init).push(name.last()) =~= p + name);
    }
}

proof fn lemma_gather_value(n: Seq<u8>, p: Seq<u8>, value: Seq<u8>)
    requires
        !value.contains(AT),
    ensures
        scan(Scan::GatherValue(n, p), value) == Scan::GatherValue(n, p + value),
        scan_pairs(Scan::GatherValue(n, p), value) == Seq::<(Seq<u8>, Seq<u8>)>::empty(),
    decreases value.len(),
{
    if value.len() == 0 {
        assert(p + value =~= p);
    } else {
        let init = value.drop_last();
        assert(!init.contains(AT)) by {
            if init.contains(AT) {
                let k = choose|k: int| 0 <= k < init.len() && init[k] == AT;
                assert(value[k] == AT);
            }
        }
        assert(value.last() != AT) by {
            assert(value[value.len() - 1] == value.last());
        }
        lemma_gather_value(n, p, init);
        assert((p + init).push(value.last()) =~= p + value);
    }
}

/// An item `@name@value@@` that starts a line is read as the key `name` with the
/// value `value`, when neither holds an '@'; the line goes on in the waiting state.
pub proof fn law_key_value_at_line_start(name: Seq<u8>, value: Seq<u8>)
    requires
        !name.contains(AT),
        !value.contains(AT),
    ensures
        scan(Scan::LineStart, seq![AT] + name + seq![AT] + value + seq![AT, AT]) == Scan::Waiting,
        scan_pairs(Scan::LineStart, seq![AT] + name + seq![AT] + value + seq![AT, AT]) == seq![
            (name, value),
        ],
{
    let e = Seq::<(Seq<u8>, Seq<u8>)>::empty();
    let s0 = Scan::LineStart;
    let a1 = seq![AT];
    let a2 = a1 + name;
    let a3 = a2 + seq![AT];
    let a4 = a3 + value;
    let a5 = a4 + seq![AT];
    let a6 = a5 + seq![AT];
    assert(a6 =~= seq![AT] + name + seq![AT] + value + seq![AT, AT]);
    lemma_one(s0, AT);
    assert(scan(s0, a1) == Scan::GatherName(seq![]));
    law_chunking(s0, a1, name);
    lemma_gather_name(seq![], name);
    assert(Seq::<u8>::empty() + name =~= name);
    assert(scan(s0, a2) == Scan::GatherName(name));
    assert(scan_pairs(s0, a2) =~= e);
    law_chunking(s0, a2, seq![AT]);
    lemma_one(Scan::GatherName(name), AT);
    assert(scan(s0, a3) == Scan::GatherValue(name, seq![]));
    assert(scan_pairs(s0, a3) =~= e);
    law_chunking(s0, a3, value);
    lemma_gather_value(name, seq![], value);
    assert(Seq::<u8>::empty() + value =~= value);
    assert(scan(s0, a4) == Scan::GatherValue(name, value));
    assert(scan_pairs(s0, a4) =~= e);
    law_chunking(s0, a4, seq![AT]);
    lemma_one(Scan::GatherValue(name, value), AT);
    assert(scan(s0, a5) == Scan::FirstAt(name, value));
    assert(scan_pairs(s0, a5) =~= e);
    law_chunking(s0, a5, seq![AT]);
    lemma_one(Scan::FirstAt(name, value), AT);
    assert(scan(s0, a6) == Scan::Waiting);
    assert(scan_pairs(s0, a6) =~= seq![(name, value)]);
}

/// A line `@name@value@@` read from the start of a line, with its line break,
/// gives the key `name` with the value `value` and leaves the scanner at the start
/// of the next line, so such lines can follow one another.
pub proof fn law_key_value_line(name: Seq<u8>, value: Seq<u8>)
    requires
        !name.contains(AT),
        !value.contains(AT),
    ensures
        scan(Scan::LineStart, seq![AT] + name + seq![AT] + value + seq![AT, AT] + seq![LF])
            == Scan::LineStart,
        scan_pairs(Scan::LineStart, seq![AT] + name + seq![AT] + value + seq![AT, AT] + seq![LF])
            == seq![(name, value)],
{
    let item = seq![AT] + name + seq![AT] + value + seq![AT, AT];
    law_key_value_at_line_start(name, value);
    law_chunking(Scan::LineStart, item, seq![LF]);
    lemma_one(Scan::Waiting, LF);
    assert(seq![(name, value)] + Seq::<(Seq<u8>, Seq<u8>)>::empty() =~= seq![(name, value)]);
}

/// An '@' that does not start a line opens no key: read from the middle of a line,
/// input without a line break completes no item and stays in the waiting state.
pub proof fn law_at_only_at_line_start(bytes: Seq<u8>)
    requires
        !bytes.contains(LF),
        !bytes.contains(CR),
    ensures
        scan(Scan::Waiting, bytes) == Scan::Waiting,
        scan_pairs(Scan::Waiting, bytes) == Seq::<(Seq<u8>, Seq<u8>)>::empty(),
    decreases bytes.len(),
{
    if bytes.len() > 0 {
        let init = bytes.drop_last();
        assert(!init.contains(LF) && !init.contains(CR)) by {
            if init.contains(LF) {
                let k = choose|k: int| 0 <= k < init.len() && init[k] == LF;
                assert(bytes[k] == LF);
            }
            if init.contains(CR) {
                let k = choose|k: int| 0 <= k < init.len() && init[k] == CR;
                assert(bytes[k] == CR);
            }
        }
        assert(bytes[bytes.len() - 1] == bytes.last());
        law_at_only_at_line_start(init);
    }
}

/// internal parse state
enum State {
    /// middle of not @@ characters
    Waiting,
    /// at line start - look for @
    LineStart,
    /// we found an '@' at line-start - gather a name
    GatherName(Vec<u8>),
    /// we found a second '@' start gathering value
    GatherValue(Vec<u8>, Vec<u8>),
    /// we found a first termination '@' if we get another it'll be a N/V
    FirstAt(Vec<u8>, Vec<u8>),
}

impl View for State {
    type V = Scan;

    closed spec fn view(&self) -> Scan {
        match self {
            State::Waiting => Scan::Waiting,
            State::LineStart => Scan::LineStart,
            State::GatherName(n) => Scan::GatherName(n@),
            State::GatherValue(n, v) => Scan::GatherValue(n@, v@),
            State::FirstAt(n, v) => Scan::FirstAt(n@, v@),
        }
    }
}

/// The text of a raw key or value.
fn text_of(raw: &Vec<u8>) -> (s: String)
    ensures
        s@ == atat_text(raw@),
        trim(s@) == s@,
        !raw@.contains(AT) ==> !s@.contains('@'),
{
    let lossy = from_utf8_lossy(raw.as_slice());
    let s = trim_str(lossy.as_str());
    proof {
        lemma_trim_idem(lossy@);
    }
    s
}

/// AtAt Encoded KV Parser
pub struct AtAtParser {
    state: State,
    eof: bool,
}

impl AtAtParser {
    #[verifier::type_invariant]
    spec fn keys_clean(&self) -> bool {
        key_clean(self.state@)
    }

    /// The scanner state that the parser carries between chunks.
    pub closed spec fn scan_state(&self) -> Scan {
        self.state@
    }

    /// Whether the parser has seen the end of its input.
    pub closed spec fn is_eof(&self) -> bool {
        self.eof
    }

    /// A parser at the start of its input.
    pub fn new() -> (p: Self)
        ensures
            p.scan_state() == Scan::LineStart,
            !p.is_eof(),
    {
        AtAtParser { state: State::LineStart, eof: false }
    }

    /// Execute one iteration of parsing, on the next chunk of input.
    /// An empty chunk marks the end of the input.
    /// A 'None' result indicates the input is complete (EOF).
    pub fn parse(&mut self, chunk: &[u8]) -> (out: Option<Vec<AtAtParseItem>>)
        ensures
            old(self).is_eof() ==> out is None && *final(self) == *old(self),
            !old(self).is_eof() && chunk@.len() == 0 ==> out is None && final(self).is_eof(),
            !old(self).is_eof() && chunk@.len() > 0 ==> {
                &&& out is Some
                &&& !final(self).is_eof()
                &&& final(self).scan_state() == scan(old(self).scan_state(), chunk@)
                &&& out->0@.map_values(|it: AtAtParseItem| it@) == chunk_items(
                    old(self).scan_state(),
                    chunk@,
                )
                &&& forall|i: int| 0 <= i < out->0@.len() ==> clean_item(#[trigger] out->0@[i]@)
            },
    {
        proof {
            use_type_invariant(&*self);
        }
        if self.eof {
            return None;
        }
        if chunk.len() == 0 {
            self.eof = true;
            self.state = State::Waiting;
            return None;
        }
        let ghost s0 = self.state@;
        let mut st = State::Waiting;
        std::mem::swap(&mut st, &mut self.state);
        let mut out: Vec<AtAtParseItem> = Vec::new();
        out.push(AtAtParseItem::Data(slice_to_vec(chunk)));
        let n = chunk.len();
        let mut i: usize = 0;
        proof {
            assert(chunk@.take(0) =~= Seq::<u8>::empty());
            assert(scan_pairs(s0, chunk@.take(0)) =~= Seq::<(Seq<u8>, Seq<u8>)>::empty());
            assert(out@.map_values(|it: AtAtParseItem| it@) =~= seq![AtAtItemView::Data(chunk@)]
                + scan_pairs(s0, chunk@.take(0)).map_values(|kv: (Seq<u8>, Seq<u8>)| pair_item(kv)));
            assert(clean_item(out@[0]@));
        }
        while i < n
            invariant
                n == chunk@.len(),
                i <= n,
                st@ == scan(s0, chunk@.take(i as int)),
                out@.map_values(|it: AtAtParseItem| it@) == seq![AtAtItemView::Data(chunk@)]
                    + scan_pairs(s0, chunk@.take(i as int)).map_values(
                    |kv: (Seq<u8>, Seq<u8>)| pair_item(kv),
                ),
                key_clean(st@),
                forall|j: int| 0 <= j < out@.len() ==> clean_item(#[trigger] out@[j]@),
            decreases n - i,
        {
            let c = chunk[i];
            let ghost pre = st@;
            let ghost before = out@.map_values(|it: AtAtParseItem| it@);
            proof {
                assert(chunk@.take(i + 1).drop_last() =~= chunk@.take(i as int));
                assert(chunk@.take(i + 1).last() == c);
            }
            st = match st {
                State::Waiting => {
                    if c == LF || c == CR {
                        State::LineStart
                    } else {
                        State::Waiting
                    }
                },
                State::LineStart => {
                    if c == AT {
                        State::GatherName(Vec::new())
                    } else if c == LF || c == CR {
                        State::LineStart
                    } else {
                        State::Waiting
                    }
                },
                State::GatherName(mut name) => {
                    if c == AT {
                        State::GatherValue(name, Vec::new())
                    } else {
                        name.push(c);
                        State::GatherName(name)
                    }
                },
                State::GatherValue(name, mut value) => {
                    if c == AT {
                        State::FirstAt(name, value)
                    } else {
                        value.push(c);
                        State::GatherValue(name, value)
                    }
                },
                State::FirstAt(name, mut value) => {
                    if c == AT {
                        let k = text_of(&name);
                        let v = text_of(&value);
                        out.push(AtAtParseItem::KeyValue(k, v));
                        State::Waiting
                    } else {
                        value.push(AT);
                        value.push(c);
                        State::GatherValue(name, value)
                    }
                },
            };
            proof {
                lemma_step_clean(pre, c);
                assert(st@ == step(pre, c));
                let pairs_before = scan_pairs(s0, chunk@.take(i as int));
                let pairs_after = scan_pairs(s0, chunk@.take(i + 1));
                match step_pair(pre, c) {
                    Some(kv) => {
                        assert(pairs_after == pairs_before.push(kv));
                        assert(pairs_after.map_values(|kv: (Seq<u8>, Seq<u8>)| pair_item(kv))
                            =~= pairs_before.map_values(|kv: (Seq<u8>, Seq<u8>)| pair_item(kv)).push(
                            pair_item(kv),
                        ));
                        assert(out@.map_values(|it: AtAtParseItem| it@) =~= before.push(
                            pair_item(kv),
                        ));
                    },
                    None => {
                        assert(pairs_after == pairs_before);
                        assert(out@.map_values(|it: AtAtParseItem| it@) =~= before);
                    },
                }
            }
            i = i + 1;
        }
        proof {
            assert(chunk@.take(n as int) =~= chunk@);
        }
        self.state = st;
        Some(out)
    }
}

} // verus!

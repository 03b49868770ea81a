//! Node-based flow graph records: typed input and output ports and the
//! connections between nodes.
use vstd::prelude::*;
use vstd::string::StringSliceAdditionalSpecFns;

verus! {

/// Keys of the per-node attribute map.
#[derive(Debug, PartialEq, Eq, Hash, Clone, Copy)]
pub enum DataKey {
    Duration,
}

/// A connection arriving at an input port: the node it comes from and the
/// port on that node.
#[derive(Debug, Clone)]
pub struct InConnection {
    pub node: String,
    pub input: String,
}

/// A connection leaving an output port: the node it goes to and the port on
/// that node.
#[derive(Debug, Clone)]
pub struct OutConnection {
    pub node: String,
    pub output: String,
}

/// An input port of a flow element with its incoming connections.
#[derive(Debug)]
pub struct FlowElementInput {
    pub connections: Vec<InConnection>,
}

/// An output port of a flow element with its outgoing connections.
#[derive(Debug)]
pub struct FlowElementOutput {
    pub connections: Vec<OutConnection>,
}

pub open spec fn is_digit(b: u8) -> bool {
    48 <= b <= 57
}

/// Value of a run of decimal digits.
pub open spec fn digits_value(d: Seq<u8>) -> nat
    decreases d.len(),
{
    if d.len() == 0 {
        0
    } else {
        digits_value(d.drop_last()) * 10 + (d.last() - 48) as nat
    }
}

/// The digits of a duration text: the text after an optional leading `+`.
pub open spec fn unsigned_part(b: Seq<u8>) -> Seq<u8> {
    if b.len() > 0 && b[0] == 43 {
        b.subrange(1, b.len() as int)
    } else {
        b
    }
}

/// The duration a text denotes: an optional `+` followed by at least one
/// decimal digit and nothing else, with a value that fits in `usize`.
pub open spec fn parsed_duration(b: Seq<u8>) -> Option<nat> {
    let d = unsigned_part(b);
    if d.len() > 0 && (forall|i: int| 0 <= i < d.len() ==> is_digit(#[trigger] d[i]))
        && digits_value(d) <= usize::MAX {
        Some(digits_value(d))
    } else {
        None
    }
}

proof fn lemma_digits_grow(d: Seq<u8>, i: int)
    requires
        0 <= i <= d.len(),
        forall|k: int| 0 <= k < d.len() ==> is_digit(#[trigger] d[k]),
    ensures
        digits_value(d.subrange(0, i)) <= digits_value(d),
    decreases d.len() - i,
{
    if i < d.len() {
        lemma_digits_grow(d, i + 1);
        assert(d.subrange(0, i + 1).drop_last() == d.subrange(0, i));
    } else {
        assert(d.subrange(0, i) == d);
    }
}

/// The duration written in `text`, or zero when `text` is not a duration.
pub fn parse_duration(text: &str) -> (r: usize)
    ensures
        r == match parsed_duration(text.spec_bytes()) {
            Some(v) => v,
            None => 0,
        },
{
    let b = text.as_bytes();
    let ghost bytes = text.spec_bytes();
    let ghost d = unsigned_part(bytes);
    let mut i: usize = 0;
    if b.len() > 0 && b[0] == 43u8 {
        i = 1;
    }
    let start = i;
    assert(d =~= bytes.subrange(start as int, bytes.len() as int));
    if start >= b.len() {
        return 0;
    }
    let mut v: usize = 0;
    while i < b.len()
        invariant
            b@ == bytes,
            bytes == text.spec_bytes(),
            d == unsigned_part(bytes),
            d == bytes.subrange(start as int, bytes.len() as int),
            start <= i <= bytes.len(),
            forall|k: int| start <= k < i ==> is_digit(#[trigger] bytes[k]),
            v == digits_value(bytes.subrange(start as int, i as int)),
        decreases bytes.len() - i,
    {
        let c = b[i];
        if c < 48u8 || c > 57u8 {
            assert(d[i - start] == c);
            assert(!is_digit(d[i - start]));
            return 0;
        }
        let digit = (c - 48u8) as usize;
        proof {
            assert(bytes.subrange(start as int, i + 1).drop_last() =~= bytes.subrange(
                start as int,
                i as int,
            ));
        }
        if v > (usize::MAX - digit) / 10 {
            proof {
                assert(v * 10 + digit > usize::MAX) by (nonlinear_arith)
                    requires
                        v > (usize::MAX - digit) / 10,
                        digit <= 9,
                ;
                let p = bytes.subrange(start as int, i + 1);
                assert(digits_value(p) > usize::MAX);
                if forall|k: int| 0 <= k < d.len() ==> is_digit(#[trigger] d[k]) {
                    lemma_digits_grow(d, i + 1 - start);
                    assert(d.subrange(0, i + 1 - start) =~= p);
                }
            }
            return 0;
        }
        v = v * 10 + digit;
        i = i + 1;
    }
    assert(bytes.subrange(start as int, i as int) =~= d);
    v
}

} // verus!

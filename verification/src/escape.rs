//! The byte-stuffing transform applied to rule values on the wire.
//!
//! A rule value travels inside a null-terminated text field, so the bytes
//! `0x00` (the terminator), `0x01` (the escape marker) and `0xFF` cannot
//! appear literally in a stuffed mod-table fragment. Before transmission each
//! of them is replaced by a two-byte sequence starting with `0x01`; this
//! module reverses that encoding.

use vstd::prelude::*;

verus! {

/// The unescaped form of a byte sequence.
///
/// `0x01 0x01` yields `0x01`, `0x01 0x02` yields `0x00`, `0x01 0x03` yields
/// `0xFF`. A `0x01` followed by any other byte is not an escape: it is kept
/// as it is and the scan moves on by one byte, so the following byte is
/// examined on its own. A lone `0x01` at the very end of the input is an
/// incomplete escape and is dropped.
pub open spec fn unescape_spec(s: Seq<u8>) -> Seq<u8>
    decreases s.len(),
{
    if s.len() == 0 {
        Seq::empty()
    } else if s[0] == 0x01 {
        if s.len() == 1 {
            Seq::empty()
        } else if s[1] == 0x01 {
            seq![0x01u8] + unescape_spec(s.skip(2))
        } else if s[1] == 0x02 {
            seq![0x00u8] + unescape_spec(s.skip(2))
        } else if s[1] == 0x03 {
            seq![0xFFu8] + unescape_spec(s.skip(2))
        } else {
            seq![0x01u8] + unescape_spec(s.skip(1))
        }
    } else {
        seq![s[0]] + unescape_spec(s.skip(1))
    }
}

/// Holds when unescaping leaves a byte sequence unchanged: no `0x01` starts
/// an escape pair or dangles at the end.
pub open spec fn escape_free(s: Seq<u8>) -> bool {
    forall|i: int|
        0 <= i < s.len() && #[trigger] s[i] == 0x01 ==> i + 1 < s.len() && s[i + 1] != 0x01 && s[i
            + 1] != 0x02 && s[i + 1] != 0x03
}

/// On an escape-free sequence the transform is the identity.
pub proof fn lemma_unescape_escape_free(s: Seq<u8>)
    requires
        escape_free(s),
    ensures
        unescape_spec(s) == s,
    decreases s.len(),
{
    if s.len() == 0 {
        assert(unescape_spec(s) =~= s);
    } else {
        assert(escape_free(s.skip(1))) by {
            assert forall|i: int|
                0 <= i < s.skip(1).len() && #[trigger] s.skip(1)[i] == 0x01 implies i + 1 < s.skip(
                1,
            ).len() && s.skip(1)[i + 1] != 0x01 && s.skip(1)[i + 1] != 0x02 && s.skip(1)[i + 1]
                != 0x03 by {
                assert(s[i + 1] == s.skip(1)[i]);
            }
        }
        lemma_unescape_escape_free(s.skip(1));
        if s[0] == 0x01 {
            assert(1 < s.len() && s[1] != 0x01 && s[1] != 0x02 && s[1] != 0x03);
        }
        assert(seq![s[0]] + s.skip(1) =~= s);
    }
}

/// A lone escape marker at the very end of the input is dropped and
/// contributes nothing: appending `0x01` to a sequence that holds no other
/// escape marker unescapes to that sequence alone.
pub proof fn lemma_lone_trailing_escape(s: Seq<u8>)
    requires
        forall|i: int| 0 <= i < s.len() ==> #[trigger] s[i] != 0x01,
    ensures
        unescape_spec(s.push(0x01)) == s,
    decreases s.len(),
{
    let t = s.push(0x01);
    if s.len() == 0 {
        assert(t.len() == 1 && t[0] == 0x01);
        assert(unescape_spec(t) =~= s);
    } else {
        assert(t[0] == s[0] && s[0] != 0x01);
        assert(t.skip(1) =~= s.skip(1).push(0x01));
        assert(forall|i: int| 0 <= i < s.skip(1).len() ==> #[trigger] s.skip(1)[i] != 0x01) by {
            assert(forall|i: int|
                0 <= i < s.skip(1).len() ==> #[trigger] s.skip(1)[i] == s[i + 1]);
        }
        lemma_lone_trailing_escape(s.skip(1));
        assert(unescape_spec(t) == seq![s[0]] + unescape_spec(t.skip(1)));
        assert(seq![s[0]] + s.skip(1) =~= s);
    }
}

/// Reverses the wire escape encoding of a rule value. Total: no input is
/// rejected, a trailing lone `0x01` is dropped.
pub fn unescape(bytes: &Vec<u8>) -> (r: Vec<u8>)
    ensures
        r@ == unescape_spec(bytes@),
{
    let mut out: Vec<u8> = Vec::new();
    let mut i: usize = 0;
    proof {
        assert(bytes@.skip(0) =~= bytes@);
        assert(out@ + unescape_spec(bytes@) =~= unescape_spec(bytes@));
    }
    while i < bytes.len()
        invariant
            i <= bytes@.len(),
            unescape_spec(bytes@) == out@ + unescape_spec(bytes@.skip(i as int)),
        decreases bytes@.len() - i,
    {
        let ghost pre = bytes@.skip(i as int);
        let c = bytes[i];
        assert(pre[0] == c);
        if c == 0x01 {
            if i + 1 == bytes.len() {
                // incomplete escape at the end of the buffer: dropped
                assert(pre.len() == 1);
                assert(unescape_spec(pre) =~= unescape_spec(bytes@.skip(i + 1)));
                i = i + 1;
            } else {
                let n = bytes[i + 1];
                assert(pre[1] == n);
                if n == 0x01 || n == 0x02 || n == 0x03 {
                    let decoded: u8 = if n == 0x01 {
                        0x01
                    } else if n == 0x02 {
                        0x00
                    } else {
                        0xFF
                    };
                    assert(unescape_spec(pre) == seq![decoded] + unescape_spec(pre.skip(2)));
                    assert(pre.skip(2) =~= bytes@.skip(i + 2));
                    out.push(decoded);
                    proof {
                        assert(out@ + unescape_spec(bytes@.skip(i + 2)) =~= (out@.drop_last()
                            + seq![decoded]) + unescape_spec(bytes@.skip(i + 2)));
                        assert(out@.drop_last() + (seq![decoded] + unescape_spec(
                            bytes@.skip(i + 2),
                        )) =~= (out@.drop_last() + seq![decoded]) + unescape_spec(
                            bytes@.skip(i + 2),
                        ));
                    }
                    i = i + 2;
                } else {
                    assert(unescape_spec(pre) == seq![0x01u8] + unescape_spec(pre.skip(1)));
                    assert(pre.skip(1) =~= bytes@.skip(i + 1));
                    out.push(0x01);
                    proof {
                        assert(out@.drop_last() + (seq![0x01u8] + unescape_spec(
                            bytes@.skip(i + 1),
                        )) =~= out@ + unescape_spec(bytes@.skip(i + 1)));
                    }
                    i = i + 1;
                }
            }
        } else {
            assert(unescape_spec(pre) == seq![c] + unescape_spec(pre.skip(1)));
            assert(pre.skip(1) =~= bytes@.skip(i + 1));
            out.push(c);
            proof {
                assert(out@.drop_last() + (seq![c] + unescape_spec(bytes@.skip(i + 1))) =~= out@
                    + unescape_spec(bytes@.skip(i + 1)));
            }
            i = i + 1;
        }
    }
    proof {
        assert(bytes@.skip(i as int) =~= Seq::<u8>::empty());
        assert(out@ + unescape_spec(bytes@.skip(i as int)) =~= out@);
    }
    out
}

} // verus!

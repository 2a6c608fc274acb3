//! Textual form of a list: `[e1, e2, ..., en]`, comma-space separated,
//! `[]` when empty.
//!
//! The text is built fully verified as a sequence of ASCII bytes; only
//! the final step, turning those bytes into a `String`, leans on the
//! standard library's UTF-8 decoder.

use vstd::prelude::*;

use crate::singly::SinglyLinkedList;

verus! {

/// The decimal digits of `n`, most significant first, as ASCII bytes.
pub open spec fn dec_bytes(n: nat) -> Seq<u8>
    decreases n,
{
    if n < 10 {
        seq![(48 + n) as u8]
    } else {
        dec_bytes(n / 10).push((48 + n % 10) as u8)
    }
}

/// The values of `s` in decimal, separated by a comma and a space.
pub open spec fn comma_sep(s: Seq<u64>) -> Seq<u8>
    decreases s.len(),
{
    if s.len() == 0 {
        Seq::empty()
    } else if s.len() == 1 {
        dec_bytes(s[0] as nat)
    } else {
        dec_bytes(s[0] as nat) + seq![44u8, 32u8] + comma_sep(s.drop_first())
    }
}

/// The whole debug form of a value sequence, as ASCII bytes.
pub open spec fn debug_bytes(s: Seq<u64>) -> Seq<u8> {
    seq![91u8] + comma_sep(s) + seq![93u8]
}

/// The whole debug form of a value sequence, as characters.
pub open spec fn debug_chars(s: Seq<u64>) -> Seq<char> {
    debug_bytes(s).map(|i: int, b: u8| b as char)
}

/// Every byte of a decimal rendering is an ASCII digit.
proof fn lemma_dec_bytes_ascii(n: nat)
    ensures
        forall|j: int| 0 <= j < dec_bytes(n).len() ==> 48 <= #[trigger] dec_bytes(n)[j] < 128,
    decreases n,
{
    if n < 10 {
        assert(dec_bytes(n)[0] == (48 + n) as u8);
    } else {
        lemma_dec_bytes_ascii(n / 10);
        assert forall|j: int| 0 <= j < dec_bytes(n).len() implies 48 <= #[trigger] dec_bytes(n)[j]
            < 128 by {
            assert(dec_bytes(n) == dec_bytes(n / 10).push((48 + n % 10) as u8));
            if j < dec_bytes(n / 10).len() {
                assert(dec_bytes(n)[j] == dec_bytes(n / 10)[j]);
            } else {
                assert(dec_bytes(n)[j] == (48 + n % 10) as u8);
            }
        }
    }
}

/// Appending one more value extends the separated form by a separator
/// (when something precedes) and the value's decimal digits.
proof fn lemma_comma_sep_push(s: Seq<u64>, x: u64)
    ensures
        s.len() == 0 ==> comma_sep(s.push(x)) == dec_bytes(x as nat),
        s.len() > 0 ==> comma_sep(s.push(x)) == comma_sep(s) + seq![44u8, 32u8] + dec_bytes(
            x as nat,
        ),
    decreases s.len(),
{
    if s.len() == 0 {
        assert(s.push(x).len() == 1);
        assert(s.push(x)[0] == x);
    } else {
        lemma_comma_sep_push(s.drop_first(), x);
        assert(s.push(x).drop_first() =~= s.drop_first().push(x));
        assert(s.push(x)[0] == s[0]);
        if s.len() == 1 {
            assert(comma_sep(s.push(x)) == dec_bytes(s[0] as nat) + seq![44u8, 32u8] + comma_sep(
                s.drop_first().push(x),
            ));
            assert(comma_sep(s.drop_first().push(x)) == dec_bytes(x as nat));
        } else {
            assert(comma_sep(s.push(x)) == dec_bytes(s[0] as nat) + seq![44u8, 32u8] + comma_sep(
                s.drop_first().push(x),
            ));
            assert(comma_sep(s.drop_first().push(x)) == comma_sep(s.drop_first()) + seq![
                44u8,
                32u8,
            ] + dec_bytes(x as nat));
            assert(dec_bytes(s[0] as nat) + seq![44u8, 32u8] + (comma_sep(s.drop_first()) + seq![
                44u8,
                32u8,
            ] + dec_bytes(x as nat)) =~= (dec_bytes(s[0] as nat) + seq![44u8, 32u8] + comma_sep(
                s.drop_first(),
            )) + seq![44u8, 32u8] + dec_bytes(x as nat));
        }
    }
}

/// Appends the decimal digits of `x` to `out`.
fn push_dec(out: &mut Vec<u8>, x: u64)
    ensures
        final(out)@ == old(out)@ + dec_bytes(x as nat),
    decreases x,
{
    if x < 10 {
        out.push((48 + x) as u8);
        proof {
            assert(old(out)@ + dec_bytes(x as nat) =~= old(out)@.push((48 + x) as u8));
        }
    } else {
        push_dec(out, x / 10);
        out.push((48 + x % 10) as u8);
        proof {
            assert(old(out)@ + dec_bytes(x as nat) =~= (old(out)@ + dec_bytes((x / 10) as nat))
                .push((48 + x % 10) as u8));
        }
    }
}

/// Relies on `String::from_utf8`: bytes below 128 are the one-byte UTF-8
/// encodings of the characters with the same code points, so decoding
/// cannot fail and yields exactly those characters.
#[verifier::external_body]
fn ascii_to_string(bytes: Vec<u8>) -> (s: String)
    requires
        forall|i: int| 0 <= i < bytes@.len() ==> bytes@[i] < 128,
    ensures
        s@ == bytes@.map(|i: int, b: u8| b as char),
{
    match String::from_utf8(bytes) {
        Ok(s) => s,
        Err(_) => String::new(),
    }
}

impl SinglyLinkedList<u64> {
    /// The textual debug form of the list: the values in chain order in
    /// decimal, comma-space separated, between square brackets; `[]`
    /// when the list is empty.
    pub fn debug_string(&self) -> (s: String)
        ensures
            s@ == debug_chars(self@),
    {
        let mut out: Vec<u8> = Vec::new();
        out.push(91);
        let mut it = self.iter();
        let mut first: bool = true;
        let ghost mut i: int = 0;
        loop
            invariant_except_break
                0 <= i <= self@.len(),
                it.remaining() == self@.skip(i),
                first <==> i == 0,
                out@ == seq![91u8] + comma_sep(self@.take(i)),
                forall|j: int| 0 <= j < out@.len() ==> #[trigger] out@[j] < 128,
            ensures
                out@ == seq![91u8] + comma_sep(self@),
                forall|j: int| 0 <= j < out@.len() ==> #[trigger] out@[j] < 128,
            decreases self@.len() - i,
        {
            match it.next() {
                None => {
                    proof {
                        assert(self@.skip(i).len() == 0);
                        assert(self@.take(i) =~= self@);
                    }
                    break;
                }
                Some(v) => {
                    proof {
                        assert(self@.skip(i)[0] == self@[i]);
                        assert(self@.skip(i).drop_first() =~= self@.skip(i + 1));
                    }
                    if !first {
                        out.push(44);
                        out.push(32);
                    }
                    let value = *v;
                    push_dec(&mut out, value);
                    proof {
                        lemma_dec_bytes_ascii(value as nat);
                        lemma_comma_sep_push(self@.take(i), value);
                        assert(self@.take(i).push(self@[i]) =~= self@.take(i + 1));
                        if i == 0 {
                            assert((seq![91u8] + comma_sep(self@.take(i))) + dec_bytes(
                                value as nat,
                            ) =~= seq![91u8] + comma_sep(self@.take(i + 1)));
                        } else {
                            assert(((seq![91u8] + comma_sep(self@.take(i))).push(44u8).push(32u8))
                                + dec_bytes(value as nat) =~= seq![91u8] + comma_sep(
                                self@.take(i + 1),
                            ));
                        }
                        i = i + 1;
                    }
                    first = false;
                }
            }
        }
        out.push(93);
        proof {
            assert(out@ =~= debug_bytes(self@));
        }
        ascii_to_string(out)
    }
}

} // verus!

//! Character classification used by the number scanner.
use vstd::prelude::*;

verus! {

/// Whether `c` counts as numeric for the lexer, i.e. whether
/// `char::is_numeric` returns true for it. The classification beyond ASCII
/// is a pure function of the character (a fixed Unicode table), so it is
/// given a name here rather than written out.
pub uninterp spec fn char_is_numeric(c: char) -> bool;

/// Relies on `char::is_numeric`: a classification by Unicode general
/// category (Nd, Nl, No) that depends on the character alone; within ASCII,
/// exactly the digits `0` to `9` belong to those categories.
#[verifier::external_body]
fn is_unicode_numeric(c: char) -> (r: bool)
    ensures
        r == char_is_numeric(c),
        c < '\u{80}' ==> (r <==> ('0' <= c && c <= '9')),
{
    c.is_numeric()
}

/// Whether `c` belongs to the character class a number literal is scanned
/// from: a numeric character or one of `.`, `-`, `e`, `E`. Within ASCII the
/// numeric characters are exactly the digits.
pub open spec fn spec_is_number_token_char(c: char) -> bool {
    ('0' <= c && c <= '9') || c == '.' || c == '-' || c == 'e' || c == 'E' || (c >= '\u{80}'
        && char_is_numeric(c))
}

/// Whether `c` may start or continue a number literal.
pub fn is_number_token_char(c: char) -> (r: bool)
    ensures
        r == spec_is_number_token_char(c),
{
    is_unicode_numeric(c) || c == '.' || c == '-' || c == 'e' || c == 'E'
}

/// Strict lexicographic order on character sequences, comparing Unicode
/// scalar values position by position; a proper prefix orders first.
pub open spec fn seq_lt(a: Seq<char>, b: Seq<char>) -> bool
    decreases a.len(),
{
    if b.len() == 0 {
        false
    } else if a.len() == 0 {
        true
    } else if a[0] < b[0] {
        true
    } else if a[0] == b[0] {
        seq_lt(a.drop_first(), b.drop_first())
    } else {
        false
    }
}

/// Of two character sequences, exactly one of `a` before `b`, `a` equal to
/// `b`, and `b` before `a` holds: the order is strict and total.
pub proof fn lemma_seq_lt_trichotomy(a: Seq<char>, b: Seq<char>)
    ensures
        seq_lt(a, b) || a == b || seq_lt(b, a),
        seq_lt(a, b) ==> a != b && !seq_lt(b, a),
        a == b ==> !seq_lt(a, b) && !seq_lt(b, a),
    decreases a.len(),
{
    if a.len() == 0 && b.len() == 0 {
        assert(a =~= b);
    } else if a.len() > 0 && b.len() > 0 {
        if a[0] == b[0] {
            lemma_seq_lt_trichotomy(a.drop_first(), b.drop_first());
            if a.drop_first() == b.drop_first() {
                assert forall|k: int| 0 <= k < a.len() implies a[k] == b[k] by {
                    if k > 0 {
                        assert(a.drop_first()[k - 1] == b.drop_first()[k - 1]);
                    }
                }
                assert(a =~= b);
            }
            if a == b {
                assert(a.drop_first() == b.drop_first());
            }
        }
    }
}

/// The lexicographic order is transitive.
pub proof fn lemma_seq_lt_transitive(a: Seq<char>, b: Seq<char>, c: Seq<char>)
    requires
        seq_lt(a, b),
        seq_lt(b, c),
    ensures
        seq_lt(a, c),
    decreases a.len(),
{
    if a.len() > 0 && b.len() > 0 && c.len() > 0 && a[0] == b[0] && b[0] == c[0] {
        lemma_seq_lt_transitive(a.drop_first(), b.drop_first(), c.drop_first());
    }
}

/// Whether `a` orders strictly before `b` in the lexicographic order on
/// their characters.
#[verifier::loop_isolation(false)]
pub fn str_lt(a: &str, b: &str) -> (r: bool)
    ensures
        r == seq_lt(a@, b@),
{
    let na = a.unicode_len();
    let nb = b.unicode_len();
    let mut i: usize = 0;
    proof {
        assert(a@.skip(0) =~= a@);
        assert(b@.skip(0) =~= b@);
    }
    loop
        invariant
            i <= na,
            i <= nb,
            seq_lt(a@, b@) == seq_lt(a@.skip(i as int), b@.skip(i as int)),
        decreases na - i,
    {
        if i >= nb {
            return false;
        }
        if i >= na {
            return true;
        }
        let ca = a.get_char(i);
        let cb = b.get_char(i);
        proof {
            assert(a@.skip(i as int)[0] == a@[i as int]);
            assert(b@.skip(i as int)[0] == b@[i as int]);
        }
        if ca < cb {
            return true;
        }
        if ca != cb {
            return false;
        }
        i += 1;
        proof {
            assert(a@.skip(i - 1).drop_first() =~= a@.skip(i as int));
            assert(b@.skip(i - 1).drop_first() =~= b@.skip(i as int));
        }
    }
}

} // verus!

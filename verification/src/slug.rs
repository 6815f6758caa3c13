//! The slug codec: a pure, deterministic mapping from display names to
//! URL-safe tokens. Letters and digits are kept and lowercased; every run of
//! other characters becomes a single dash; leading and trailing runs are
//! dropped. The mapping is idempotent, which `lemma_slug_idempotent` proves.

use vstd::prelude::*;

use crate::strutil::push_char;

verus! {

/// An ASCII letter or digit: the characters a slug keeps.
pub open spec fn is_word_char(c: char) -> bool {
    ('a' as u32 <= c as u32 && c as u32 <= 'z' as u32) || ('A' as u32 <= c as u32 && c as u32
        <= 'Z' as u32) || ('0' as u32 <= c as u32 && c as u32 <= '9' as u32)
}

/// ASCII lowercasing of one character; characters outside A-Z are unchanged.
pub open spec fn low(c: char) -> char {
    if 'A' as u32 <= c as u32 && c as u32 <= 'Z' as u32 {
        ((c as u8) + 32) as char
    } else {
        c
    }
}

/// The slug of a display name: keep letters and digits, lowercased; collapse
/// every other run of characters to one dash; no dash at either end.
pub open spec fn slug_of(s: Seq<char>) -> Seq<char>
    decreases s.len(),
{
    if s.len() == 0 {
        Seq::empty()
    } else if !is_word_char(s[0]) {
        slug_of(s.drop_first())
    } else {
        let rest = slug_of(s.drop_first());
        if s.len() > 1 && !is_word_char(s[1]) && rest.len() > 0 {
            seq![low(s[0]), '-'] + rest
        } else {
            seq![low(s[0])] + rest
        }
    }
}

/// A character that may appear in a slug: a lowercase letter or a digit.
pub open spec fn is_slug_char(c: char) -> bool {
    is_word_char(c) && low(c) == c
}

/// What it is to be a slug already: only lowercase letters, digits and single
/// interior dashes, with no dash at either end.
pub open spec fn is_slug(s: Seq<char>) -> bool {
    &&& forall|i: int| 0 <= i < s.len() ==> is_slug_char(#[trigger] s[i]) || s[i] == '-'
    &&& (s.len() > 0 ==> s[0] != '-' && s[s.len() - 1] != '-')
    &&& forall|i: int| 0 < i < s.len() && #[trigger] s[i] == '-' ==> s[i - 1] != '-'
}

proof fn lemma_low_word(c: char)
    requires
        is_word_char(c),
    ensures
        is_slug_char(low(c)),
{
    if 'A' as u32 <= c as u32 && c as u32 <= 'Z' as u32 {
        assert((c as u32) < 256);
        assert(c as u8 as u32 == c as u32);
        let b: u8 = ((c as u8) + 32) as u8;
        assert(b as char as u32 == b as u32);
    }
}

proof fn lemma_slug_is_slug(s: Seq<char>)
    ensures
        is_slug(slug_of(s)),
    decreases s.len(),
{
    if s.len() == 0 {
    } else if !is_word_char(s[0]) {
        lemma_slug_is_slug(s.drop_first());
    } else {
        lemma_slug_is_slug(s.drop_first());
        let rest = slug_of(s.drop_first());
        lemma_low_word(s[0]);
        assert(is_slug_char(low(s[0])));
    }
}

proof fn lemma_slug_fixed(s: Seq<char>)
    requires
        is_slug(s),
    ensures
        slug_of(s) == s,
    decreases s.len(),
{
    if s.len() == 0 {
    } else {
        assert(s[0] != '-');
        assert(is_slug_char(s[0]));
        assert(low(s[0]) == s[0]);
        if s.len() == 1 {
            assert(slug_of(s.drop_first()) == Seq::<char>::empty());
            assert(slug_of(s) =~= s);
        } else if s[1] != '-' {
            let t = s.drop_first();
            assert(is_slug(t)) by {
                assert(forall|i: int| 0 <= i < t.len() ==> t[i] == s[i + 1]);
            }
            lemma_slug_fixed(t);
            assert(is_slug_char(s[1]));
            assert(is_word_char(s[1]));
            assert(s.drop_first()[0] == s[1]);
            assert(slug_of(s) == seq![low(s[0])] + t);
            assert(seq![low(s[0])] + t =~= s);
        } else {
            // s begins with a word character followed by a dash; since no
            // slug ends in a dash and no two dashes are adjacent, s[2]
            // exists and is a word character.
            assert(s.len() >= 3) by {
                assert(s[s.len() - 1] != '-');
            }
            assert(s[2] != '-') by {
                assert(s[2] == '-' ==> s[1] != '-');
            }
            let t = s.drop_first();
            let u = t.drop_first();
            assert(forall|i: int| 0 <= i < t.len() ==> t[i] == s[i + 1]);
            assert(forall|i: int| 0 <= i < u.len() ==> u[i] == s[i + 2]);
            assert(is_slug(u));
            lemma_slug_fixed(u);
            assert(!is_word_char(t[0]));
            assert(slug_of(t) == slug_of(u));
            assert(u.len() > 0);
            assert(u[0] != '-');
            assert(slug_of(s) =~= s);
        }
    }
}

/// The slug codec is idempotent: slugging a slug changes nothing.
pub proof fn lemma_slug_idempotent(s: Seq<char>)
    ensures
        slug_of(slug_of(s)) == slug_of(s),
{
    lemma_slug_is_slug(s);
    lemma_slug_fixed(slug_of(s));
}

fn is_word_char_exec(c: char) -> (r: bool)
    ensures
        r == is_word_char(c),
{
    let u = c as u32;
    ('a' as u32 <= u && u <= 'z' as u32) || ('A' as u32 <= u && u <= 'Z' as u32) || ('0' as u32 <= u
        && u <= '9' as u32)
}

fn low_exec(c: char) -> (r: char)
    ensures
        r == low(c),
{
    let u = c as u32;
    if 'A' as u32 <= u && u <= 'Z' as u32 {
        ((c as u8) + 32) as char
    } else {
        c
    }
}

fn slug_from(s: &str, i: usize) -> (r: String)
    requires
        i <= s@.len(),
    ensures
        r@ == slug_of(s@.skip(i as int)),
    decreases s@.len() - i,
{
    let n = s.unicode_len();
    if i == n {
        assert(s@.skip(i as int) =~= Seq::<char>::empty());
        String::new()
    } else {
        let c = s.get_char(i);
        assert(s@.skip(i as int)[0] == s@[i as int]);
        assert(s@.skip(i as int).drop_first() =~= s@.skip(i as int + 1));
        if !is_word_char_exec(c) {
            slug_from(s, i + 1)
        } else {
            let rest = slug_from(s, i + 1);
            let mut out = String::new();
            push_char(&mut out, low_exec(c));
            assert(out@ =~= seq![low(s@[i as int])]);
            if i + 1 < n && !is_word_char_exec(s.get_char(i + 1)) && !rest.as_str().is_empty() {
                assert(s@.skip(i as int)[1] == s@[i as int + 1]);
                push_char(&mut out, '-');
                assert(out@ =~= seq![low(s@[i as int]), '-']);
            } else {
                assert(s@.skip(i as int).len() > 1 ==> s@.skip(i as int)[1] == s@[i as int + 1]);
            }
            out.append(rest.as_str());
            out
        }
    }
}

/// Convert a human readable name to its URL slug: "Foo Bar" becomes "foo-bar".
pub fn name_to_slug(slug: String) -> (r: String)
    ensures
        r@ == slug_of(slug@),
{
    let res = slug_from(slug.as_str(), 0);
    assert(slug@.skip(0) =~= slug@);
    res
}

} // verus!

//! Slugs: anchor identifiers derived from heading text.
//!
//! A slug keeps the alphanumeric characters of the text, lowercased, and
//! collapses every maximal run of other characters into a single hyphen;
//! runs at either end of the text produce no hyphen at all.

use vstd::prelude::*;

verus! {

/// A character that survives into a slug: an ASCII letter or digit.
pub open spec fn is_word_char(c: char) -> bool {
    ('a' <= c && c <= 'z') || ('A' <= c && c <= 'Z') || ('0' <= c && c <= '9')
}

/// ASCII lowercasing of a single character.
pub open spec fn spec_lower(c: char) -> char {
    if 'A' <= c && c <= 'Z' {
        ((c as u32) + 32) as char
    } else {
        c
    }
}

/// The slug of the remaining text `s`, given whether a word character has
/// already been emitted (`started`) and whether separator characters have
/// been seen since the last emitted one (`gap`).
pub open spec fn slug_rec(s: Seq<char>, started: bool, gap: bool) -> Seq<char>
    decreases s.len(),
{
    if s.len() == 0 {
        Seq::empty()
    } else if is_word_char(s[0]) {
        (if started && gap {
            seq!['-']
        } else {
            Seq::empty()
        }) + seq![spec_lower(s[0])] + slug_rec(s.drop_first(), true, false)
    } else {
        slug_rec(s.drop_first(), started, true)
    }
}

/// The slug of a text.
pub open spec fn slug_of(s: Seq<char>) -> Seq<char> {
    slug_rec(s, false, false)
}

/// A character a finished slug may contain besides hyphens: a lowercase
/// letter or a digit.
pub open spec fn slug_char(c: char) -> bool {
    is_word_char(c) && spec_lower(c) == c
}

/// Relies on `alloc::string::String::push`: appends the given character
/// to the end of the string.
pub assume_specification[ String::push ](s: &mut String, c: char)
    ensures
        final(s)@ == old(s)@.push(c),
;

fn word_char(c: char) -> (r: bool)
    ensures
        r == is_word_char(c),
{
    (c >= 'a' && c <= 'z') || (c >= 'A' && c <= 'Z') || (c >= '0' && c <= '9')
}

pub(crate) fn ascii_lower(c: char) -> (r: char)
    ensures
        r == spec_lower(c),
{
    if c >= 'A' && c <= 'Z' {
        let u: u32 = c as u32;
        let b: u8 = (u + 32) as u8;
        proof {
            assert('A' as u32 == 65 && 'Z' as u32 == 90);
            assert(u + 32 < 256 ==> (u + 32) as u8 == u + 32) by (bit_vector);
        }
        b as char
    } else {
        c
    }
}

/// Turns a text into the anchor identifier that both the table of contents
/// and the rendered headings use.
pub fn parameterize(s: &str) -> (r: String)
    ensures
        r@ == slug_of(s@),
{
    let n: usize = s.unicode_len();
    let mut out = String::new();
    let mut started: bool = false;
    let mut gap: bool = false;
    let mut i: usize = 0;
    proof {
        assert(s@.subrange(0, n as int) =~= s@);
        assert(out@ + slug_of(s@) =~= slug_of(s@));
    }
    while i < n
        invariant
            n == s@.len(),
            i <= n,
            slug_of(s@) == out@ + slug_rec(s@.subrange(i as int, n as int), started, gap),
        decreases n - i,
    {
        let ghost tail = s@.subrange(i as int, n as int);
        proof {
            assert(tail.drop_first() =~= s@.subrange(i as int + 1, n as int));
        }
        let c = s.get_char(i);
        if word_char(c) {
            if started && gap {
                out.push('-');
            }
            out.push(ascii_lower(c));
            proof {
                assert(slug_of(s@) =~= out@ + slug_rec(tail.drop_first(), true, false));
            }
            started = true;
            gap = false;
        } else {
            gap = true;
        }
        i = i + 1;
    }
    proof {
        assert(s@.subrange(n as int, n as int) =~= Seq::<char>::empty());
        assert(out@ + Seq::<char>::empty() =~= out@);
    }
    out
}

proof fn lemma_lower_word(c: char)
    requires
        is_word_char(c),
    ensures
        slug_char(spec_lower(c)),
{
    if 'A' <= c && c <= 'Z' {
        assert('A' as u32 == 65 && 'Z' as u32 == 90);
        assert('a' as u32 == 97 && 'z' as u32 == 122);
    }
}

/// Every slug consists of word characters already in lowercase and of
/// single hyphens, begins with a word character unless a word character
/// was already emitted, and never ends in a hyphen.
proof fn lemma_slug_rec_shape(s: Seq<char>, started: bool, gap: bool)
    ensures
        ({
            let r = slug_rec(s, started, gap);
            &&& forall|i: int| 0 <= i < r.len() ==> slug_char(r[i]) || r[i] == '-'
            &&& forall|i: int| 0 <= i < r.len() - 1 ==> !(#[trigger] r[i] == '-' && r[i + 1] == '-')
            &&& r.len() > 0 ==> r[r.len() - 1] != '-'
            &&& !started ==> (r.len() > 0 ==> r[0] != '-')
        }),
    decreases s.len(),
{
    let r = slug_rec(s, started, gap);
    if s.len() == 0 {
    } else if is_word_char(s[0]) {
        lemma_lower_word(s[0]);
        lemma_slug_rec_shape(s.drop_first(), true, false);
        let sep: Seq<char> = if started && gap {
            seq!['-']
        } else {
            Seq::empty()
        };
        let rest = slug_rec(s.drop_first(), true, false);
        assert(r == sep + seq![spec_lower(s[0])] + rest);
        assert forall|i: int| 0 <= i < r.len() implies slug_char(r[i]) || r[i] == '-' by {
            if i >= sep.len() + 1 {
                assert(r[i] == rest[i - sep.len() - 1]);
            }
        }
        assert forall|i: int| 0 <= i < r.len() - 1 implies !(#[trigger] r[i] == '-' && r[i + 1]
            == '-') by {
            let base = sep.len() + 1;
            if i >= base {
                assert(r[i] == rest[i - base] && r[i + 1] == rest[i + 1 - base]);
            } else if i + 1 == base {
                assert(r[i] == (sep + seq![spec_lower(s[0])])[i]);
                if rest.len() > 0 {
                    assert(r[i + 1] == rest[0]);
                }
                assert(r[i] != '-');
            }
        }
        if rest.len() > 0 {
            assert(r[r.len() - 1] == rest[rest.len() - 1]);
        } else {
            assert(r[r.len() - 1] == spec_lower(s[0]));
        }
        if sep.len() == 0 {
            assert(r[0] == spec_lower(s[0]));
        }
    } else {
        lemma_slug_rec_shape(s.drop_first(), started, true);
    }
}

/// A text already in slug shape (word characters in lowercase and single
/// hyphens, not ending in a hyphen) passes through unchanged once a word
/// character is pending.
proof fn lemma_slug_rec_fixed(t: Seq<char>)
    requires
        forall|i: int| 0 <= i < t.len() ==> slug_char(t[i]) || t[i] == '-',
        forall|i: int| 0 <= i < t.len() - 1 ==> !(#[trigger] t[i] == '-' && t[i + 1] == '-'),
        t.len() > 0 ==> t[t.len() - 1] != '-',
    ensures
        slug_rec(t, true, false) == t,
    decreases t.len(),
{
    if t.len() == 0 {
        assert(slug_rec(t, true, false) =~= t);
    } else if t[0] != '-' {
        let rest = t.drop_first();
        lemma_slug_rec_fixed(rest);
        assert(slug_rec(t, true, false) =~= t);
    } else {
        // A hyphen is never last and never doubled, so a word character follows.
        assert(t.len() >= 2);
        assert(t[1] != '-');
        let t1 = t.drop_first();
        assert(t1[0] == t[1]);
        let t2 = t1.drop_first();
        assert(forall|i: int| 0 <= i < t2.len() ==> t2[i] == t[i + 2]);
        lemma_slug_rec_fixed(t2);
        assert(slug_rec(t, true, false) == slug_rec(t1, true, true));
        assert(slug_rec(t1, true, true) == seq!['-'] + seq![spec_lower(t1[0])] + slug_rec(
            t2,
            true,
            false,
        ));
        assert(slug_rec(t, true, false) =~= t);
    }
}

/// Slugs are idempotent: turning a text into a slug twice gives the same
/// result as doing it once.
pub proof fn lemma_parameterize_idempotent(s: Seq<char>)
    ensures
        slug_of(slug_of(s)) == slug_of(s),
{
    lemma_slug_rec_shape(s, false, false);
    let t = slug_of(s);
    if t.len() == 0 {
        assert(slug_of(t) =~= t);
    } else {
        assert(t[0] != '-');
        let rest = t.drop_first();
        lemma_slug_rec_fixed(rest);
        assert(slug_of(t) == seq![spec_lower(t[0])] + slug_rec(rest, true, false));
        assert(slug_of(t) =~= t);
    }
}

} // verus!

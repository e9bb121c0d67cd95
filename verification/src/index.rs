//! The index page: every post's metadata, newest first, with pagination
//! once the site outgrows one page.

use crate::post::PostMeta;
use vstd::prelude::*;
use vstd::multiset::Multiset;
use vstd::seq_lib::group_to_multiset_ensures;

verus! {

/// Page navigation of an index that has grown past one page.
#[derive(Debug, PartialEq, Eq)]
pub struct Pagenation {
    pub first_page: Option<String>,
    pub previous_page: Option<String>,
    pub next_page: Option<String>,
    pub latest_page: Option<String>,
    pub page: u32,
    pub total_pages: u32,
}

/// The index of the whole site.
#[derive(Debug, PartialEq, Eq)]
pub struct Index {
    pub posts: Vec<PostMeta>,
    pub pagenation: Option<Pagenation>,
}

/// Lexicographic order on texts by character; on `YYYY-MM-DD` dates it
/// is also the chronological order.
pub open spec fn lex_le(a: Seq<char>, b: Seq<char>) -> bool
    decreases a.len(),
{
    if a.len() == 0 {
        true
    } else if b.len() == 0 {
        false
    } else if a[0] != b[0] {
        a[0] < b[0]
    } else {
        lex_le(a.drop_first(), b.drop_first())
    }
}

/// Newest first: each entry's date is at most every date before it.
pub open spec fn sorted_by_date_desc(s: Seq<PostMeta>) -> bool {
    forall|i: int, j: int|
        0 <= i <= j < s.len() ==> lex_le(
            #[trigger] s[j].published_date@,
            #[trigger] s[i].published_date@,
        )
}

/// Any two texts compare one way or the other.
proof fn lemma_lex_total(a: Seq<char>, b: Seq<char>)
    ensures
        lex_le(a, b) || lex_le(b, a),
    decreases a.len(),
{
    if a.len() > 0 && b.len() > 0 && a[0] == b[0] {
        lemma_lex_total(a.drop_first(), b.drop_first());
    }
}

/// The order chains: what is at most `b`, which is at most `c`, is at
/// most `c`.
proof fn lemma_lex_trans(a: Seq<char>, b: Seq<char>, c: Seq<char>)
    requires
        lex_le(a, b),
        lex_le(b, c),
    ensures
        lex_le(a, c),
    decreases a.len(),
{
    if a.len() > 0 {
        if b.len() > 0 && c.len() > 0 && a[0] == b[0] && b[0] == c[0] {
            lemma_lex_trans(a.drop_first(), b.drop_first(), c.drop_first());
        }
    }
}

fn date_le(a: &str, b: &str) -> (r: bool)
    ensures
        r == lex_le(a@, b@),
{
    let na: usize = a.unicode_len();
    let nb: usize = b.unicode_len();
    let mut i: usize = 0;
    proof {
        assert(a@.subrange(0, na as int) =~= a@);
        assert(b@.subrange(0, nb as int) =~= b@);
    }
    while i < na
        invariant
            na == a@.len(),
            nb == b@.len(),
            i <= na,
            i <= nb,
            lex_le(a@, b@) == lex_le(
                a@.subrange(i as int, na as int),
                b@.subrange(i as int, nb as int),
            ),
        decreases na - i,
    {
        let ghost asuf = a@.subrange(i as int, na as int);
        let ghost bsuf = b@.subrange(i as int, nb as int);
        proof {
            assert(asuf.drop_first() =~= a@.subrange(i as int + 1, na as int));
            if i < nb {
                assert(bsuf.drop_first() =~= b@.subrange(i as int + 1, nb as int));
            }
        }
        if i >= nb {
            return false;
        }
        let ca = a.get_char(i);
        let cb = b.get_char(i);
        if ca != cb {
            return ca < cb;
        }
        i = i + 1;
    }
    proof {
        assert(a@.subrange(na as int, na as int) =~= Seq::<char>::empty());
    }
    true
}

/// Reorders the metadata newest first: the result holds the same posts
/// and its dates never ascend.
fn sort_newest_first(metas: Vec<PostMeta>) -> (r: Vec<PostMeta>)
    ensures
        r@.to_multiset() == metas@.to_multiset(),
        r@.len() == metas@.len(),
        sorted_by_date_desc(r@),
{
    broadcast use group_to_multiset_ensures;

    let ghost orig = metas@.to_multiset();
    let ghost orig_len = metas@.len();
    let mut src = metas;
    let mut out: Vec<PostMeta> = Vec::new();
    proof {
        assert(out@.to_multiset().add(src@.to_multiset()) =~= orig);
    }
    while src.len() > 0
        invariant
            out@.to_multiset().add(src@.to_multiset()) == orig,
            out@.len() + src@.len() == orig_len,
            sorted_by_date_desc(out@),
            forall|k: int, j: int|
                0 <= k < out@.len() && 0 <= j < src@.len() ==> lex_le(
                    #[trigger] src@[j].published_date@,
                    #[trigger] out@[k].published_date@,
                ),
        decreases src.len(),
    {
        let mut m: usize = 0;
        let mut j: usize = 1;
        proof {
            lemma_lex_total(src@[0].published_date@, src@[0].published_date@);
        }
        while j < src.len()
            invariant
                src@.len() > 0,
                m < src@.len(),
                j <= src@.len(),
                forall|k: int|
                    0 <= k < j ==> lex_le(
                        #[trigger] src@[k].published_date@,
                        src@[m as int].published_date@,
                    ),
            decreases src@.len() - j,
        {
            if date_le(src[m].published_date.as_str(), src[j].published_date.as_str()) {
                let ghost old_m = m as int;
                m = j;
                proof {
                    assert forall|k: int|
                        0 <= k < j + 1 implies lex_le(
                        #[trigger] src@[k].published_date@,
                        src@[m as int].published_date@,
                    ) by {
                        if k < j {
                            lemma_lex_trans(
                                src@[k].published_date@,
                                src@[old_m].published_date@,
                                src@[m as int].published_date@,
                            );
                        } else {
                            lemma_lex_total(
                                src@[k].published_date@,
                                src@[k].published_date@,
                            );
                        }
                    }
                }
            } else {
                proof {
                    lemma_lex_total(
                        src@[j as int].published_date@,
                        src@[m as int].published_date@,
                    );
                }
            }
            j = j + 1;
        }
        let ghost pre = src@;
        let x = src.remove(m);
        proof {
            pre.remove_ensures(m as int);
            assert(x == pre[m as int]);
            assert forall|j2: int|
                0 <= j2 < src@.len() implies lex_le(
                #[trigger] src@[j2].published_date@,
                x.published_date@,
            ) by {
                if j2 < m as int {
                    assert(src@[j2] == pre[j2]);
                } else {
                    assert(src@[j2] == pre[j2 + 1]);
                }
            }
        }
        let ghost pre_out = out@;
        out.push(x);
        proof {
            pre.to_multiset_ensures();
            pre_out.to_multiset_ensures();
            assert(src@ == pre.remove(m as int));
            assert(pre.remove(m as int).to_multiset() =~= pre.to_multiset().remove(
                pre[m as int],
            ));
            assert(pre_out.push(x).to_multiset() =~= pre_out.to_multiset().insert(x));
            assert(pre.contains(pre[m as int]));
            assert(pre.to_multiset().count(pre[m as int]) > 0);
            assert(out@.to_multiset().add(src@.to_multiset()) =~= orig);
            assert forall|k: int, j2: int|
                0 <= k < out@.len() && 0 <= j2 < src@.len() implies lex_le(
                #[trigger] src@[j2].published_date@,
                #[trigger] out@[k].published_date@,
            ) by {
                if k < out@.len() - 1 {
                    if j2 < m as int {
                        assert(src@[j2] == pre[j2]);
                    } else {
                        assert(src@[j2] == pre[j2 + 1]);
                    }
                }
            }
            assert forall|i: int, j2: int|
                0 <= i <= j2 < out@.len() implies lex_le(
                #[trigger] out@[j2].published_date@,
                #[trigger] out@[i].published_date@,
            ) by {
                if j2 < out@.len() - 1 {
                    assert(out@[i] == pre_out[i]);
                    assert(out@[j2] == pre_out[j2]);
                }
            }
        }
    }
    proof {
        assert(src@.to_multiset() =~= Multiset::<PostMeta>::empty());
        assert(out@.to_multiset().add(Multiset::<PostMeta>::empty()) =~= out@.to_multiset());
    }
    out
}

impl Index {
    /// Builds the index from the metadata of the posts that rendered,
    /// sorted newest first, with pagination once the site holds more
    /// files than one page shows.
    pub fn from_metas(metas: Vec<PostMeta>, file_count: usize) -> (r: Index)
        ensures
            r.posts@.to_multiset() == metas@.to_multiset(),
            r.posts@.len() == metas@.len(),
            sorted_by_date_desc(r.posts@),
            file_count <= 20 ==> r.pagenation is None,
            file_count > 20 ==> (match r.pagenation {
                Option::Some(p) => {
                    &&& (match p.first_page {
                        Option::Some(f) => f@ == "index.html"@,
                        Option::None => false,
                    })
                    &&& p.previous_page is None
                    &&& p.next_page is None
                    &&& (match p.latest_page {
                        Option::Some(l) => l@ == "index.html"@,
                        Option::None => false,
                    })
                    &&& p.page == 1
                    &&& p.total_pages == (file_count as u32) / 20 + 1
                },
                Option::None => false,
            }),
    {
        let pagenation = if file_count > 20 {
            Option::Some(
                Pagenation {
                    first_page: Option::Some("index.html".to_owned()),
                    previous_page: Option::None,
                    next_page: Option::None,
                    latest_page: Option::Some("index.html".to_owned()),
                    page: 1,
                    total_pages: (file_count as u32) / 20 + 1,
                },
            )
        } else {
            Option::None
        };
        let posts = sort_newest_first(metas);
        Index { posts, pagenation }
    }
}

} // verus!

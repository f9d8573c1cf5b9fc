use vstd::prelude::*;
use vstd::multiset::Multiset;
use crate::page::Page;

verus! {

/// The name of the category that holds the pages with an empty category hint.
pub const DEFAULT_CATEGORY: &'static str = "Uncategorized";

/// A named group of pages, in display order.
#[derive(Clone, PartialEq, Eq, Debug)]
pub struct Category {
    pub name: String,
    pub pages: Vec<Page>,
}

/// The name of the category that a page belongs to: its hint, or the default
/// category when the hint is empty.
pub open spec fn category_key(p: Page) -> Seq<char> {
    if p.category@.len() == 0 {
        DEFAULT_CATEGORY@
    } else {
        p.category@
    }
}

/// The pages of `ps` that belong to the category `name`, in their order in `ps`.
pub open spec fn pages_in(ps: Seq<Page>, name: Seq<char>) -> Seq<Page> {
    ps.filter(|p: Page| category_key(p) == name)
}

/// No two categories share a name.
pub open spec fn names_distinct(cs: Seq<Category>) -> bool {
    forall|a: int, b: int| 0 <= a < b < cs.len() ==> cs[a].name@ != cs[b].name@
}

/// Some page among the first `n` of `ps` belongs to the category `name`.
pub open spec fn key_occurs(ps: Seq<Page>, n: int, name: Seq<char>) -> bool {
    exists|j: int| 0 <= j < n && category_key(#[trigger] ps[j]) == name
}

/// Some category of `cs` is named `name`.
pub open spec fn has_category(cs: Seq<Category>, name: Seq<char>) -> bool {
    exists|c: int| 0 <= c < cs.len() && (#[trigger] cs[c]).name@ == name
}

/// Every page of category `y` in `ps` comes after some page of category `x`.
pub open spec fn seen_before(ps: Seq<Page>, x: Seq<char>, y: Seq<char>) -> bool {
    forall|i: int|
        0 <= i < ps.len() && category_key(#[trigger] ps[i]) == y ==> key_occurs(ps, i, x)
}

/// The categories appear in the order in which their first page appears in `ps`.
pub open spec fn in_first_seen_order(cs: Seq<Category>, ps: Seq<Page>) -> bool {
    forall|a: int, b: int|
        0 <= a < b < cs.len() ==> #[trigger] seen_before(ps, cs[a].name@, cs[b].name@)
}

/// `cs` is the grouping of `ps`: one category for each distinct category key
/// of the pages, in first-seen order, each holding exactly the pages of that
/// key in their input order.
pub open spec fn is_grouping_of(cs: Seq<Category>, ps: Seq<Page>) -> bool {
    &&& names_distinct(cs)
    &&& forall|c: int| 0 <= c < cs.len() ==> (#[trigger] cs[c]).pages@ == pages_in(ps, cs[c].name@)
    &&& forall|c: int| 0 <= c < cs.len() ==> key_occurs(ps, ps.len() as int, (#[trigger] cs[c]).name@)
    &&& forall|i: int| 0 <= i < ps.len() ==> has_category(cs, category_key(#[trigger] ps[i]))
    &&& in_first_seen_order(cs, ps)
}

/// All pages held by the categories `cs`, counted with multiplicity.
pub open spec fn pages_multiset(cs: Seq<Category>) -> Multiset<Page>
    decreases cs.len(),
{
    if cs.len() == 0 {
        Multiset::empty()
    } else {
        pages_multiset(cs.drop_last()).add(cs.last().pages@.to_multiset())
    }
}

/// Filtering a sequence extended by one page.
proof fn lemma_pages_in_push(ps: Seq<Page>, p: Page, name: Seq<char>)
    ensures
        pages_in(ps.push(p), name) == if category_key(p) == name {
            pages_in(ps, name).push(p)
        } else {
            pages_in(ps, name)
        },
{
    ps.lemma_filter_push(p, |q: Page| category_key(q) == name);
}

/// No page of `ps` belongs to `name`, so none is kept by the filter.
proof fn lemma_pages_in_absent(ps: Seq<Page>, name: Seq<char>)
    requires
        !key_occurs(ps, ps.len() as int, name),
    ensures
        pages_in(ps, name) == Seq::<Page>::empty(),
{
    let f = pages_in(ps, name);
    if f.len() > 0 {
        broadcast use vstd::seq_lib::group_filter_ensures;
        assert(f.contains(f[0]));
        ps.lemma_filter_contains_rev(|p: Page| category_key(p) == name, f[0]);
        let j = choose|j: int| 0 <= j < ps.len() && ps[j] == f[0];
        assert(category_key(ps[j]) == name);
    }
    assert(f =~= Seq::<Page>::empty());
}

/// A page occurs in the pages of a category as often as in `ps` when it
/// belongs to that category, and not at all otherwise.
proof fn lemma_pages_in_count(ps: Seq<Page>, name: Seq<char>, x: Page)
    ensures
        pages_in(ps, name).to_multiset().count(x) == if category_key(x) == name {
            ps.to_multiset().count(x)
        } else {
            0
        },
    decreases ps.len(),
{
    broadcast use vstd::seq_lib::group_to_multiset_ensures;

    if ps.len() == 0 {
        assert(pages_in(ps, name) =~= Seq::<Page>::empty());
    } else {
        let rest = ps.drop_last();
        let last = ps.last();
        assert(ps =~= rest.push(last));
        lemma_pages_in_push(rest, last, name);
        lemma_pages_in_count(rest, name, x);
    }
}

/// Over categories with distinct names, each holding its pages of `ps`, a page
/// is held as often as it occurs in `ps` when its category is among them.
proof fn lemma_pages_multiset_count(cs: Seq<Category>, ps: Seq<Page>, x: Page)
    requires
        names_distinct(cs),
        forall|c: int| 0 <= c < cs.len() ==> (#[trigger] cs[c]).pages@ == pages_in(ps, cs[c].name@),
    ensures
        pages_multiset(cs).count(x) == if has_category(cs, category_key(x)) {
            ps.to_multiset().count(x)
        } else {
            0
        },
    decreases cs.len(),
{
    if cs.len() > 0 {
        let rest = cs.drop_last();
        let last = cs.last();
        assert forall|c: int| 0 <= c < rest.len() implies (#[trigger] rest[c]).pages@ == pages_in(
            ps,
            rest[c].name@,
        ) by {
            assert(rest[c] == cs[c]);
        }
        lemma_pages_multiset_count(rest, ps, x);
        lemma_pages_in_count(ps, last.name@, x);
        if category_key(x) == last.name@ {
            assert(cs[cs.len() - 1] == last);
            if has_category(rest, category_key(x)) {
                let w = choose|w: int| 0 <= w < rest.len() && (#[trigger] rest[w]).name@ == category_key(x);
                assert(cs[w] == rest[w]);
            }
        } else {
            if has_category(cs, category_key(x)) {
                let w = choose|w: int| 0 <= w < cs.len() && (#[trigger] cs[w]).name@ == category_key(x);
                assert(rest[w] == cs[w]);
            }
            if has_category(rest, category_key(x)) {
                let w = choose|w: int| 0 <= w < rest.len() && (#[trigger] rest[w]).name@ == category_key(x);
                assert(cs[w] == rest[w]);
            }
        }
    }
}

/// Grouping loses and duplicates nothing: the pages of all categories,
/// counted with multiplicity, are exactly the input pages.
pub proof fn lemma_grouping_complete(cs: Seq<Category>, ps: Seq<Page>)
    requires
        is_grouping_of(cs, ps),
    ensures
        pages_multiset(cs) == ps.to_multiset(),
{
    broadcast use vstd::seq_lib::group_to_multiset_ensures;

    assert forall|x: Page| #[trigger] pages_multiset(cs).count(x) == ps.to_multiset().count(x) by {
        lemma_pages_multiset_count(cs, ps, x);
        if ps.to_multiset().count(x) > 0 {
            assert(ps.contains(x));
            let i = choose|i: int| 0 <= i < ps.len() && ps[i] == x;
            assert(has_category(cs, category_key(ps[i])));
        }
    }
    assert(pages_multiset(cs) =~= ps.to_multiset());
}

/// The category name of a page: its hint, or the default name.
fn category_name(p: &Page) -> (r: String)
    ensures
        r@ == category_key(*p),
{
    if p.category.as_str().is_empty() {
        String::from_str(DEFAULT_CATEGORY)
    } else {
        p.category.clone()
    }
}

/// The position of the category named `name`, if there is one.
fn find_category(cs: &Vec<Category>, name: &String) -> (r: Option<usize>)
    ensures
        match r {
            Some(c) => c < cs@.len() && cs@[c as int].name@ == name@,
            None => !has_category(cs@, name@),
        },
{
    let mut c: usize = 0;
    while c < cs.len()
        invariant
            c <= cs@.len(),
            forall|k: int| 0 <= k < c ==> cs@[k].name@ != name@,
        decreases cs@.len() - c,
    {
        if cs[c].name == *name {
            return Some(c);
        }
        c += 1;
    }
    None
}

/// Groups pages into categories by their category name. Categories come in
/// the order in which their first page comes; within a category, pages keep
/// their input order. Every page lands in exactly one category.
pub fn group(pages: &Vec<Page>) -> (r: Vec<Category>)
    ensures
        is_grouping_of(r@, pages@),
        pages_multiset(r@) == pages@.to_multiset(),
{
    let mut r: Vec<Category> = Vec::new();
    let mut i: usize = 0;
    while i < pages.len()
        invariant
            i <= pages@.len(),
            is_grouping_of(r@, pages@.take(i as int)),
        decreases pages@.len() - i,
    {
        let p = pages[i].clone();
        let name = category_name(&p);
        let ghost before = pages@.take(i as int);
        let ghost after = pages@.take(i + 1);
        let ghost old_r = r@;
        proof {
            assert(after =~= before.push(p));
            assert forall|n: Seq<char>| #[trigger] pages_in(after, n) == if category_key(p) == n {
                pages_in(before, n).push(p)
            } else {
                pages_in(before, n)
            } by {
                lemma_pages_in_push(before, p, n);
            }
            assert forall|j: int, n: Seq<char>| 0 <= j <= i && key_occurs(before, j, n)
                implies #[trigger] key_occurs(after, j, n) by {
                let w = choose|w: int| 0 <= w < j && category_key(#[trigger] before[w]) == n;
                assert(after[w] == before[w]);
            }
        }
        match find_category(&r, &name) {
            Some(c) => {
                r[c].pages.push(p);
                proof {
                    assert forall|k: int| 0 <= k < r@.len() implies (#[trigger] r@[k]).pages@
                        == pages_in(after, r@[k].name@) by {
                        if k != c {
                            assert(r@[k] == old_r[k]);
                        }
                    }
                    assert forall|k: int| 0 <= k < r@.len() implies key_occurs(
                        after,
                        after.len() as int,
                        (#[trigger] r@[k]).name@,
                    ) by {
                        assert(r@[k].name@ == old_r[k].name@);
                    }
                    assert forall|j: int| 0 <= j < after.len() implies has_category(
                        r@,
                        category_key(#[trigger] after[j]),
                    ) by {
                        if j < i {
                            assert(after[j] == before[j]);
                            let w = choose|w: int| 0 <= w < old_r.len() && (#[trigger] old_r[w]).name@
                                == category_key(before[j]);
                            assert(r@[w].name@ == old_r[w].name@);
                        } else {
                            assert(r@[c as int].name@ == category_key(after[j]));
                        }
                    }
                    assert forall|a: int, b: int| 0 <= a < b < r@.len() implies #[trigger] seen_before(
                        after,
                        r@[a].name@,
                        r@[b].name@,
                    ) by {
                        assert(r@[a].name@ == old_r[a].name@);
                        assert(r@[b].name@ == old_r[b].name@);
                        assert(seen_before(before, old_r[a].name@, old_r[b].name@));
                        assert forall|j: int| 0 <= j < after.len() && category_key(
                            #[trigger] after[j],
                        ) == r@[b].name@ implies key_occurs(after, j, r@[a].name@) by {
                            if j < i {
                                assert(after[j] == before[j]);
                            } else {
                                assert(key_occurs(before, before.len() as int, old_r[b].name@));
                                let w = choose|w: int| 0 <= w < before.len() && category_key(
                                    #[trigger] before[w],
                                ) == old_r[b].name@;
                                assert(key_occurs(before, w, old_r[a].name@));
                            }
                        }
                    }
                    assert(is_grouping_of(r@, after));
                }
            },
            None => {
                let ghost gname = name@;
                proof {
                    assert forall|j: int| 0 <= j < before.len() implies category_key(#[trigger] before[j])
                        != gname by {
                        assert(has_category(old_r, category_key(before[j])));
                    }
                    lemma_pages_in_absent(before, gname);
                }
                let mut v: Vec<Page> = Vec::new();
                v.push(p);
                r.push(Category { name, pages: v });
                proof {
                    let last = old_r.len() as int;
                    assert(r@[last].pages@ =~= pages_in(after, gname));
                    assert forall|k: int| 0 <= k < r@.len() implies (#[trigger] r@[k]).pages@
                        == pages_in(after, r@[k].name@) by {
                        if k < last {
                            assert(r@[k] == old_r[k]);
                            assert(has_category(old_r, old_r[k].name@));
                        }
                    }
                    assert forall|k: int| 0 <= k < r@.len() implies key_occurs(
                        after,
                        after.len() as int,
                        (#[trigger] r@[k]).name@,
                    ) by {
                        if k < last {
                            assert(r@[k] == old_r[k]);
                        } else {
                            assert(category_key(after[i as int]) == gname);
                        }
                    }
                    assert forall|j: int| 0 <= j < after.len() implies has_category(
                        r@,
                        category_key(#[trigger] after[j]),
                    ) by {
                        if j < i {
                            assert(after[j] == before[j]);
                            let w = choose|w: int| 0 <= w < old_r.len() && (#[trigger] old_r[w]).name@
                                == category_key(before[j]);
                            assert(r@[w] == old_r[w]);
                        } else {
                            assert(r@[last].name@ == category_key(after[j]));
                        }
                    }
                    assert forall|a: int, b: int| 0 <= a < b < r@.len() implies #[trigger] seen_before(
                        after,
                        r@[a].name@,
                        r@[b].name@,
                    ) by {
                        assert(r@[a] == old_r[a]);
                        assert forall|j: int| 0 <= j < after.len() && category_key(
                            #[trigger] after[j],
                        ) == r@[b].name@ implies key_occurs(after, j, r@[a].name@) by {
                            if b < last {
                                assert(r@[b] == old_r[b]);
                                assert(seen_before(before, old_r[a].name@, old_r[b].name@));
                                if j == i {
                                    assert(has_category(old_r, old_r[b].name@));
                                } else {
                                    assert(after[j] == before[j]);
                                }
                            } else {
                                if j < i {
                                    assert(after[j] == before[j]);
                                    assert(has_category(old_r, category_key(before[j])));
                                } else {
                                    assert(key_occurs(before, before.len() as int, old_r[a].name@));
                                }
                            }
                        }
                    }
                    assert(is_grouping_of(r@, after));
                }
            },
        }
        i += 1;
    }
    assert(pages@.take(i as int) =~= pages@);
    proof {
        lemma_grouping_complete(r@, pages@);
    }
    r
}

} // verus!

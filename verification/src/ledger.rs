use vstd::prelude::*;

use crate::record::LogRecord;
use crate::text::str_eq;

verus! {

/// The count the ledger holds for `name`: 0 where no entry carries it.
pub open spec fn ledger_count(entries: Seq<(String, usize)>, name: Seq<char>) -> nat
    decreases entries.len(),
{
    if entries.len() == 0 {
        0
    } else if entries.last().0@ == name {
        entries.last().1 as nat
    } else {
        ledger_count(entries.drop_last(), name)
    }
}

/// Whether the ledger holds an entry for `name`, whatever its count.
pub open spec fn ledger_has_key(entries: Seq<(String, usize)>, name: Seq<char>) -> bool {
    exists|i: int| 0 <= i < entries.len() && entries[i].0@ == name
}

/// No two ledger entries carry the same category name.
pub open spec fn ledger_keys_unique(entries: Seq<(String, usize)>) -> bool {
    forall|i: int, j: int| 0 <= i < j < entries.len() ==> entries[i].0@ != entries[j].0@
}

/// How often `name` occurs among one record's category names.
pub open spec fn occ_in_cats(cats: Seq<Seq<char>>, name: Seq<char>) -> nat
    decreases cats.len(),
{
    if cats.len() == 0 {
        0
    } else {
        occ_in_cats(cats.drop_last(), name) + if cats.last() == name {
            1nat
        } else {
            0
        }
    }
}

/// How many (record, category-occurrence) pairs for `name` a sequence of
/// records holds.
pub open spec fn occ_in_records(rs: Seq<LogRecord>, name: Seq<char>) -> nat
    decreases rs.len(),
{
    if rs.len() == 0 {
        0
    } else {
        occ_in_records(rs.drop_last(), name) + occ_in_cats(rs.last().cats(), name)
    }
}

pub proof fn lemma_ledger_count_absent(entries: Seq<(String, usize)>, name: Seq<char>)
    requires
        !ledger_has_key(entries, name),
    ensures
        ledger_count(entries, name) == 0,
    decreases entries.len(),
{
    if entries.len() > 0 {
        assert(entries.last().0@ != name) by {
            assert(entries[entries.len() - 1] == entries.last());
        }
        assert(!ledger_has_key(entries.drop_last(), name)) by {
            assert(forall|i: int|
                0 <= i < entries.drop_last().len() ==> entries.drop_last()[i] == entries[i]);
        }
        lemma_ledger_count_absent(entries.drop_last(), name);
    }
}

pub proof fn lemma_ledger_count_at(entries: Seq<(String, usize)>, i: int)
    requires
        ledger_keys_unique(entries),
        0 <= i < entries.len(),
    ensures
        ledger_count(entries, entries[i].0@) == entries[i].1 as nat,
    decreases entries.len(),
{
    if i == entries.len() - 1 {
        assert(entries.last() == entries[i]);
    } else {
        assert(entries.last().0@ != entries[i].0@);
        assert(entries.drop_last()[i] == entries[i]);
        lemma_ledger_count_at(entries.drop_last(), i);
    }
}

pub proof fn lemma_ledger_count_update(
    entries: Seq<(String, usize)>,
    i: int,
    v: usize,
    name: Seq<char>,
)
    requires
        ledger_keys_unique(entries),
        0 <= i < entries.len(),
    ensures
        ledger_count(entries.update(i, (entries[i].0, v)), name) == if entries[i].0@ == name {
            v as nat
        } else {
            ledger_count(entries, name)
        },
    decreases entries.len(),
{
    let e2 = entries.update(i, (entries[i].0, v));
    if i == entries.len() - 1 {
        assert(e2.last() == (entries[i].0, v));
        assert(e2.drop_last() =~= entries.drop_last());
        if entries[i].0@ != name {
            assert(entries.last() == entries[i]);
        }
    } else {
        assert(e2.last() == entries.last());
        assert(e2.drop_last() =~= entries.drop_last().update(i, (entries[i].0, v)));
        assert(entries.drop_last()[i] == entries[i]);
        lemma_ledger_count_update(entries.drop_last(), i, v, name);
        if entries.last().0@ == name {
            assert(entries[i].0@ != name);
        }
    }
}

pub proof fn lemma_ledger_count_push(entries: Seq<(String, usize)>, e: (String, usize), name: Seq<char>)
    ensures
        ledger_count(entries.push(e), name) == if e.0@ == name {
            e.1 as nat
        } else {
            ledger_count(entries, name)
        },
{
    assert(entries.push(e).last() == e);
    assert(entries.push(e).drop_last() =~= entries);
}

pub proof fn lemma_occ_cats_take_step(cats: Seq<Seq<char>>, i: int, name: Seq<char>)
    requires
        0 <= i < cats.len(),
    ensures
        occ_in_cats(cats.take(i + 1), name) == occ_in_cats(cats.take(i), name) + if cats[i]
            == name {
            1nat
        } else {
            0
        },
{
    assert(cats.take(i + 1).drop_last() =~= cats.take(i));
    assert(cats.take(i + 1).last() == cats[i]);
}

pub proof fn lemma_occ_cats_concat(a: Seq<Seq<char>>, b: Seq<Seq<char>>, name: Seq<char>)
    ensures
        occ_in_cats(a + b, name) == occ_in_cats(a, name) + occ_in_cats(b, name),
    decreases b.len(),
{
    if b.len() == 0 {
        assert(a + b =~= a);
    } else {
        assert((a + b).drop_last() =~= a + b.drop_last());
        assert((a + b).last() == b.last());
        lemma_occ_cats_concat(a, b.drop_last(), name);
    }
}

pub proof fn lemma_occ_cats_split(cats: Seq<Seq<char>>, k: int, name: Seq<char>)
    requires
        0 <= k <= cats.len(),
    ensures
        occ_in_cats(cats, name) == occ_in_cats(cats.take(k), name) + occ_in_cats(
            cats.skip(k),
            name,
        ),
{
    assert(cats =~= cats.take(k) + cats.skip(k));
    lemma_occ_cats_concat(cats.take(k), cats.skip(k), name);
}

pub proof fn lemma_occ_cats_first(cats: Seq<Seq<char>>, name: Seq<char>)
    requires
        cats.len() > 0,
    ensures
        occ_in_cats(cats, name) == occ_in_cats(cats.skip(1), name) + if cats[0] == name {
            1nat
        } else {
            0
        },
{
    lemma_occ_cats_split(cats, 1, name);
    assert(occ_in_cats(cats.take(1), name) == if cats[0] == name {
        1nat
    } else {
        0
    }) by {
        assert(occ_in_cats(Seq::<Seq<char>>::empty(), name) == 0);
        assert(cats.take(1).drop_last() =~= Seq::<Seq<char>>::empty());
        assert(cats.take(1).last() == cats[0]);
    }
}

pub proof fn lemma_occ_cats_le_len(cats: Seq<Seq<char>>, name: Seq<char>)
    ensures
        occ_in_cats(cats, name) <= cats.len(),
    decreases cats.len(),
{
    if cats.len() > 0 {
        lemma_occ_cats_le_len(cats.drop_last(), name);
    }
}

pub proof fn lemma_occ_records_concat(a: Seq<LogRecord>, b: Seq<LogRecord>, name: Seq<char>)
    ensures
        occ_in_records(a + b, name) == occ_in_records(a, name) + occ_in_records(b, name),
    decreases b.len(),
{
    if b.len() == 0 {
        assert(a + b =~= a);
    } else {
        assert((a + b).drop_last() =~= a + b.drop_last());
        assert((a + b).last() == b.last());
        lemma_occ_records_concat(a, b.drop_last(), name);
    }
}

pub proof fn lemma_occ_records_push(rs: Seq<LogRecord>, r: LogRecord, name: Seq<char>)
    ensures
        occ_in_records(rs.push(r), name) == occ_in_records(rs, name) + occ_in_cats(
            r.cats(),
            name,
        ),
{
    assert(rs.push(r).drop_last() =~= rs);
    assert(rs.push(r).last() == r);
}

pub proof fn lemma_occ_records_split(rs: Seq<LogRecord>, k: int, name: Seq<char>)
    requires
        0 <= k <= rs.len(),
    ensures
        occ_in_records(rs, name) == occ_in_records(rs.take(k), name) + occ_in_records(
            rs.skip(k),
            name,
        ),
{
    assert(rs =~= rs.take(k) + rs.skip(k));
    lemma_occ_records_concat(rs.take(k), rs.skip(k), name);
}

pub proof fn lemma_occ_records_take_step(rs: Seq<LogRecord>, i: int, name: Seq<char>)
    requires
        0 <= i < rs.len(),
    ensures
        occ_in_records(rs.take(i + 1), name) == occ_in_records(rs.take(i), name) + occ_in_cats(
            rs[i].cats(),
            name,
        ),
{
    assert(rs.take(i + 1).drop_last() =~= rs.take(i));
    assert(rs.take(i + 1).last() == rs[i]);
}

pub proof fn lemma_occ_records_first(rs: Seq<LogRecord>, name: Seq<char>)
    requires
        rs.len() > 0,
    ensures
        occ_in_records(rs, name) == occ_in_cats(rs[0].cats(), name) + occ_in_records(
            rs.skip(1),
            name,
        ),
{
    lemma_occ_records_split(rs, 1, name);
    assert(occ_in_records(rs.take(1), name) == occ_in_cats(rs[0].cats(), name)) by {
        assert(occ_in_records(Seq::<LogRecord>::empty(), name) == 0);
        assert(rs.take(1).drop_last() =~= Seq::<LogRecord>::empty());
        assert(rs.take(1).last() == rs[0]);
    }
}

/// Index of the ledger entry that carries `name`, if one does.
fn ledger_find(entries: &Vec<(String, usize)>, name: &str) -> (r: Option<usize>)
    ensures
        match r {
            Some(i) => i < entries@.len() && entries@[i as int].0@ == name@,
            None => !ledger_has_key(entries@, name@),
        },
{
    let mut i: usize = 0;
    while i < entries.len()
        invariant
            i <= entries@.len(),
            forall|j: int| 0 <= j < i ==> entries@[j].0@ != name@,
        decreases entries@.len() - i,
    {
        if str_eq(entries[i].0.as_str(), name) {
            return Some(i);
        }
        i += 1;
    }
    None
}

/// Raise the count for `name` by one, inserting the entry at one if absent.
pub(crate) fn ledger_bump(entries: &mut Vec<(String, usize)>, name: &String)
    requires
        ledger_keys_unique(old(entries)@),
        ledger_count(old(entries)@, name@) < usize::MAX,
    ensures
        ledger_keys_unique(final(entries)@),
        forall|n: Seq<char>| #[trigger]
            ledger_count(final(entries)@, n) == ledger_count(old(entries)@, n) + if n == name@ {
                1nat
            } else {
                0
            },
        forall|n: Seq<char>| #[trigger]
            ledger_has_key(final(entries)@, n) <==> (ledger_has_key(old(entries)@, n) || n
                == name@),
{
    let found = ledger_find(entries, name.as_str());
    match found {
        Some(i) => {
            proof {
                lemma_ledger_count_at(entries@, i as int);
            }
            let c = entries[i].1;
            let key = entries[i].0.clone();
            entries[i] = (key, c + 1);
            proof {
                let pre = old(entries)@;
                assert(final(entries)@ =~= pre.update(i as int, (pre[i as int].0, (c + 1) as usize)));
                assert forall|n: Seq<char>| #[trigger]
                    ledger_count(final(entries)@, n) == ledger_count(pre, n) + if n == name@ {
                        1nat
                    } else {
                        0
                    } by {
                    lemma_ledger_count_update(pre, i as int, (c + 1) as usize, n);
                    if n == name@ {
                    } else {
                        if pre[i as int].0@ == n {
                        }
                    }
                }
                assert forall|n: Seq<char>| #[trigger]
                    ledger_has_key(final(entries)@, n) <==> (ledger_has_key(pre, n) || n
                        == name@) by {
                    if ledger_has_key(pre, n) {
                        let w = choose|w: int| 0 <= w < pre.len() && pre[w].0@ == n;
                        assert(final(entries)@[w].0@ == n);
                    }
                    if ledger_has_key(final(entries)@, n) {
                        let w = choose|w: int|
                            0 <= w < final(entries)@.len() && final(entries)@[w].0@ == n;
                        assert(pre[w].0@ == n);
                    }
                    assert(pre[i as int].0@ == name@);
                }
            }
        },
        None => {
            proof {
                lemma_ledger_count_absent(entries@, name@);
            }
            let key = name.clone();
            entries.push((key, 1));
            proof {
                let pre = old(entries)@;
                let e = final(entries)@.last();
                assert(e.0@ == name@ && e.1 == 1usize);
                assert(final(entries)@ =~= pre.push(e));
                assert forall|n: Seq<char>| #[trigger]
                    ledger_count(final(entries)@, n) == ledger_count(pre, n) + if n == name@ {
                        1nat
                    } else {
                        0
                    } by {
                    lemma_ledger_count_push(pre, e, n);
                    if n == name@ {
                        lemma_ledger_count_absent(pre, n);
                    }
                }
                assert forall|n: Seq<char>| #[trigger]
                    ledger_has_key(final(entries)@, n) <==> (ledger_has_key(pre, n) || n
                        == name@) by {
                    if ledger_has_key(pre, n) {
                        let w = choose|w: int| 0 <= w < pre.len() && pre[w].0@ == n;
                        assert(final(entries)@[w].0@ == n);
                    }
                    if n == name@ {
                        assert(final(entries)@[pre.len() as int].0@ == n);
                    }
                    if ledger_has_key(final(entries)@, n) && n != name@ {
                        let w = choose|w: int|
                            0 <= w < final(entries)@.len() && final(entries)@[w].0@ == n;
                        assert(w < pre.len());
                        assert(pre[w].0@ == n);
                    }
                }
            }
        },
    }
}

/// Lower the count for `name` by one, saturating at zero; a name with no
/// entry is left alone. Entries are never removed, so the key set is kept.
pub(crate) fn ledger_drop_one(entries: &mut Vec<(String, usize)>, name: &String)
    requires
        ledger_keys_unique(old(entries)@),
    ensures
        ledger_keys_unique(final(entries)@),
        forall|n: Seq<char>| #[trigger]
            ledger_count(final(entries)@, n) == if n == name@ && ledger_count(old(entries)@, n)
                > 0 {
                (ledger_count(old(entries)@, n) - 1) as nat
            } else {
                ledger_count(old(entries)@, n)
            },
        forall|n: Seq<char>| #[trigger]
            ledger_has_key(final(entries)@, n) <==> ledger_has_key(old(entries)@, n),
{
    let found = ledger_find(entries, name.as_str());
    match found {
        Some(i) => {
            proof {
                lemma_ledger_count_at(entries@, i as int);
            }
            let c = entries[i].1;
            if c > 0 {
                let key = entries[i].0.clone();
                entries[i] = (key, c - 1);
                proof {
                    let pre = old(entries)@;
                    assert(final(entries)@ =~= pre.update(
                        i as int,
                        (pre[i as int].0, (c - 1) as usize),
                    ));
                    assert forall|n: Seq<char>| #[trigger]
                        ledger_count(final(entries)@, n) == if n == name@ && ledger_count(pre, n)
                            > 0 {
                            (ledger_count(pre, n) - 1) as nat
                        } else {
                            ledger_count(pre, n)
                        } by {
                        lemma_ledger_count_update(pre, i as int, (c - 1) as usize, n);
                    }
                    assert forall|n: Seq<char>| #[trigger]
                        ledger_has_key(final(entries)@, n) <==> ledger_has_key(pre, n) by {
                        if ledger_has_key(pre, n) {
                            let w = choose|w: int| 0 <= w < pre.len() && pre[w].0@ == n;
                            assert(final(entries)@[w].0@ == n);
                        }
                        if ledger_has_key(final(entries)@, n) {
                            let w = choose|w: int|
                                0 <= w < final(entries)@.len() && final(entries)@[w].0@ == n;
                            assert(pre[w].0@ == n);
                        }
                    }
                }
            }
        },
        None => {
            proof {
                lemma_ledger_count_absent(entries@, name@);
            }
        },
    }
}

/// The ledger's category names, in entry order.
pub(crate) fn ledger_key_list(entries: &Vec<(String, usize)>) -> (r: Vec<String>)
    ensures
        r@.len() == entries@.len(),
        forall|i: int| 0 <= i < r@.len() ==> r@[i] == entries@[i].0,
{
    let mut r: Vec<String> = Vec::new();
    let mut i: usize = 0;
    while i < entries.len()
        invariant
            i <= entries@.len(),
            r@.len() == i,
            forall|j: int| 0 <= j < i ==> r@[j] == entries@[j].0,
        decreases entries@.len() - i,
    {
        r.push(entries[i].0.clone());
        i += 1;
    }
    r
}

} // verus!

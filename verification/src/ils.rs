//! The resource tables of a FaaS instance for the iterated local search
//! estimator: resources are numbered by name in order of first appearance on
//! the hosts, and each host and each application gets a vector of amounts
//! indexed by those numbers.
use vstd::prelude::*;

verus! {

/// The text of a `String`.
pub open spec fn text_views(v: Seq<String>) -> Seq<Seq<char>> {
    v.map_values(|s: String| s@)
}

/// The names of a list of `(resource, amount)` items.
pub open spec fn item_names(items: Seq<(String, u64)>) -> Seq<Seq<char>> {
    items.map_values(|item: (String, u64)| item.0@)
}

/// The resource names of all hosts, host after host.
pub open spec fn host_resource_names(hosts: Seq<Vec<(String, u64)>>) -> Seq<Seq<char>>
    decreases hosts.len(),
{
    if hosts.len() == 0 {
        Seq::empty()
    } else {
        host_resource_names(hosts.drop_last()) + item_names(hosts.last()@)
    }
}

/// The distinct names of `names`, in order of first appearance.
pub open spec fn first_seen(names: Seq<Seq<char>>) -> Seq<Seq<char>>
    decreases names.len(),
{
    if names.len() == 0 {
        Seq::empty()
    } else {
        let before = first_seen(names.drop_last());
        if before.contains(names.last()) {
            before
        } else {
            before.push(names.last())
        }
    }
}

/// The amount of `name` in `items`: that of its last item, or 0 when no
/// item names it.
pub open spec fn amount_of(items: Seq<(String, u64)>, name: Seq<char>) -> u64
    decreases items.len(),
{
    if items.len() == 0 {
        0
    } else if items.last().0@ == name {
        items.last().1
    } else {
        amount_of(items.drop_last(), name)
    }
}

/// Returns the position of `name` in `names`, if it occurs.
pub fn resource_position(names: &Vec<String>, name: &String) -> (r: Option<usize>)
    ensures
        r is None <==> !text_views(names@).contains(name@),
        r matches Some(k) ==> k < names.len() && names@[k as int]@ == name@,
        r matches Some(k) ==> forall|j: int| 0 <= j < k ==> #[trigger] names@[j]@ != name@,
{
    let mut k: usize = 0;
    while k < names.len()
        invariant
            k <= names.len(),
            forall|j: int| 0 <= j < k ==> #[trigger] names@[j]@ != name@,
        decreases names.len() - k,
    {
        if names[k].eq(name) {
            proof {
                assert(text_views(names@)[k as int] == name@);
            }
            return Some(k);
        }
        k = k + 1;
    }
    proof {
        if text_views(names@).contains(name@) {
            let j = choose|j: int| 0 <= j < text_views(names@).len() && text_views(names@)[j] == name@;
            assert(names@[j]@ == name@);
        }
    }
    None
}

/// Returns the resource names of the hosts, each once, in order of first
/// appearance.
pub fn resource_names(hosts: &Vec<Vec<(String, u64)>>) -> (r: Vec<String>)
    ensures
        text_views(r@) == first_seen(host_resource_names(hosts@)),
{
    let mut names: Vec<String> = Vec::new();
    let mut i: usize = 0;
    while i < hosts.len()
        invariant
            i <= hosts.len(),
            text_views(names@) == first_seen(host_resource_names(hosts@.take(i as int))),
        decreases hosts.len() - i,
    {
        let items = &hosts[i];
        let ghost prefix = host_resource_names(hosts@.take(i as int));
        let mut j: usize = 0;
        while j < items.len()
            invariant
                i < hosts.len(),
                items == hosts@[i as int],
                j <= items.len(),
                prefix == host_resource_names(hosts@.take(i as int)),
                text_views(names@) == first_seen(prefix + item_names(items@).take(j as int)),
            decreases items.len() - j,
        {
            let name = &items[j].0;
            let ghost seen = prefix + item_names(items@).take(j as int);
            let ghost next = prefix + item_names(items@).take(j + 1);
            proof {
                assert(next.drop_last() =~= seen);
                assert(next.last() == name@);
            }
            match resource_position(&names, name) {
                Some(_) => {},
                None => {
                    let ghost before = names@;
                    names.push(name.clone());
                    proof {
                        assert(text_views(names@) =~= text_views(before).push(name@));
                    }
                },
            }
            j = j + 1;
        }
        proof {
            assert(item_names(items@).take(items.len() as int) =~= item_names(items@));
            assert(hosts@.take(i + 1).drop_last() =~= hosts@.take(i as int));
            assert(hosts@.take(i + 1).last() == hosts@[i as int]);
        }
        i = i + 1;
    }
    proof {
        assert(hosts@.take(hosts.len() as int) =~= hosts@);
    }
    names
}

/// No name occurs twice.
pub open spec fn distinct_names(names: Seq<Seq<char>>) -> bool {
    forall|a: int, b: int| 0 <= a < b < names.len() ==> names[a] != names[b]
}

/// The names that `first_seen` gives are distinct, and they are the names
/// that occur.
pub proof fn lemma_first_seen(names: Seq<Seq<char>>)
    ensures
        distinct_names(first_seen(names)),
        forall|x: Seq<char>| first_seen(names).contains(x) <==> names.contains(x),
    decreases names.len(),
{
    if names.len() > 0 {
        let rest = names.drop_last();
        lemma_first_seen(rest);
        assert forall|x: Seq<char>| names.contains(x) <==> (rest.contains(x) || x == names.last()) by {
            if names.contains(x) {
                let k = choose|k: int| 0 <= k < names.len() && names[k] == x;
                if k < names.len() - 1 {
                    assert(rest[k] == x);
                }
            }
            if rest.contains(x) {
                let k = choose|k: int| 0 <= k < rest.len() && rest[k] == x;
                assert(names[k] == x);
            }
            if x == names.last() {
                assert(names[names.len() - 1] == x);
            }
        }
        let before = first_seen(rest);
        if !before.contains(names.last()) {
            assert forall|x: Seq<char>| before.push(names.last()).contains(x) <==> (before.contains(x) || x == names.last()) by {
                if before.push(names.last()).contains(x) {
                    let k = choose|k: int| 0 <= k < before.len() + 1 && before.push(names.last())[k] == x;
                    if k < before.len() {
                        assert(before[k] == x);
                    }
                }
                if before.contains(x) {
                    let k = choose|k: int| 0 <= k < before.len() && before[k] == x;
                    assert(before.push(names.last())[k] == x);
                }
                if x == names.last() {
                    assert(before.push(names.last())[before.len() as int] == x);
                }
            }
            assert forall|a: int, b: int| 0 <= a < b < before.len() + 1 implies before.push(names.last())[a] != before.push(names.last())[b] by {
                if b == before.len() {
                    assert(before.push(names.last())[a] == before[a]);
                }
            }
        }
    }
}

/// Returns the amounts of the resources `names` in `items`: at each position
/// the amount of the last item with that name, or 0. Every item names one of
/// `names`, which are distinct.
pub fn capacity_vector(names: &Vec<String>, items: &Vec<(String, u64)>) -> (r: Vec<u64>)
    requires
        distinct_names(text_views(names@)),
        forall|j: int| 0 <= j < items.len() ==> text_views(names@).contains(#[trigger] items@[j].0@),
    ensures
        r.len() == names.len(),
        forall|k: int| 0 <= k < r.len() ==> #[trigger] r@[k] == amount_of(items@, names@[k]@),
{
    let mut r: Vec<u64> = Vec::new();
    let mut k: usize = 0;
    while k < names.len()
        invariant
            k <= names.len(),
            r.len() == k,
            forall|q: int| 0 <= q < k ==> #[trigger] r@[q] == 0,
        decreases names.len() - k,
    {
        r.push(0);
        k = k + 1;
    }
    proof {
        assert forall|q: int| 0 <= q < r.len() implies #[trigger] r@[q] == amount_of(items@.take(0), names@[q]@) by {
            assert(items@.take(0).len() == 0);
        }
    }
    let mut j: usize = 0;
    while j < items.len()
        invariant
            j <= items.len(),
            r.len() == names.len(),
            distinct_names(text_views(names@)),
            forall|t: int| 0 <= t < items.len() ==> text_views(names@).contains(#[trigger] items@[t].0@),
            forall|q: int| 0 <= q < r.len() ==> #[trigger] r@[q] == amount_of(items@.take(j as int), names@[q]@),
        decreases items.len() - j,
    {
        proof {
            assert(text_views(names@).contains(items@[j as int].0@));
        }
        let p = resource_position(names, &items[j].0).unwrap();
        let ghost before = r@;
        r.set(p, items[j].1);
        proof {
            let next = items@.take(j + 1);
            assert(next.drop_last() =~= items@.take(j as int));
            assert(next.last() == items@[j as int]);
            assert forall|q: int| 0 <= q < r.len() implies #[trigger] r@[q] == amount_of(next, names@[q]@) by {
                if q != p {
                    assert(text_views(names@)[q] == names@[q]@);
                    assert(text_views(names@)[p as int] == names@[p as int]@);
                    if q < p {
                        assert(text_views(names@)[q] != text_views(names@)[p as int]);
                    } else {
                        assert(text_views(names@)[p as int] != text_views(names@)[q]);
                    }
                    assert(before[q] == r@[q]);
                }
            }
        }
        j = j + 1;
    }
    proof {
        assert(items@.take(items.len() as int) =~= items@);
    }
    r
}

/// Returns the amount vectors of `rows` (one per host, or one per
/// application) over the resources `names`.
pub fn capacity_matrix(names: &Vec<String>, rows: &Vec<Vec<(String, u64)>>) -> (r: Vec<Vec<u64>>)
    requires
        distinct_names(text_views(names@)),
        forall|i: int, j: int|
            0 <= i < rows.len() && 0 <= j < rows@[i].len() ==> text_views(names@).contains(#[trigger] rows@[i]@[j].0@),
    ensures
        r.len() == rows.len(),
        forall|i: int| 0 <= i < r.len() ==> #[trigger] r@[i].len() == names.len(),
        forall|i: int, k: int|
            0 <= i < r.len() && 0 <= k < names.len() ==> #[trigger] r@[i]@[k] == amount_of(rows@[i]@, names@[k]@),
{
    let mut r: Vec<Vec<u64>> = Vec::new();
    let mut i: usize = 0;
    while i < rows.len()
        invariant
            i <= rows.len(),
            r.len() == i,
            distinct_names(text_views(names@)),
            forall|a: int, j: int|
                0 <= a < rows.len() && 0 <= j < rows@[a].len() ==> text_views(names@).contains(#[trigger] rows@[a]@[j].0@),
            forall|a: int| 0 <= a < r.len() ==> #[trigger] r@[a].len() == names.len(),
            forall|a: int, k: int|
                0 <= a < r.len() && 0 <= k < names.len() ==> #[trigger] r@[a]@[k] == amount_of(rows@[a]@, names@[k]@),
        decreases rows.len() - i,
    {
        proof {
            assert forall|j: int| 0 <= j < rows@[i as int].len() implies text_views(names@).contains(#[trigger] rows@[i as int]@[j].0@) by {
            }
        }
        let v = capacity_vector(names, &rows[i]);
        r.push(v);
        i = i + 1;
    }
    r
}

/// Every host's resource names occur among the names of all hosts.
proof fn lemma_host_names_contain(hosts: Seq<Vec<(String, u64)>>, i: int, j: int)
    requires
        0 <= i < hosts.len(),
        0 <= j < hosts[i]@.len(),
    ensures
        host_resource_names(hosts).contains(hosts[i]@[j].0@),
    decreases hosts.len(),
{
    let rest = hosts.drop_last();
    let tail = item_names(hosts.last()@);
    if i < hosts.len() - 1 {
        lemma_host_names_contain(rest, i, j);
        let k = choose|k: int| 0 <= k < host_resource_names(rest).len() && host_resource_names(rest)[k] == hosts[i]@[j].0@;
        assert((host_resource_names(rest) + tail)[k] == hosts[i]@[j].0@);
    } else {
        assert((host_resource_names(rest) + tail)[host_resource_names(rest).len() + j] == tail[j]);
    }
}

/// Returns the resource names of the hosts (each once, in order of first
/// appearance) and, for each host, its amounts of those resources.
pub fn host_table(hosts: &Vec<Vec<(String, u64)>>) -> (r: (Vec<String>, Vec<Vec<u64>>))
    ensures
        text_views(r.0@) == first_seen(host_resource_names(hosts@)),
        r.1.len() == hosts.len(),
        forall|i: int| 0 <= i < r.1.len() ==> #[trigger] r.1@[i].len() == r.0.len(),
        forall|i: int, k: int|
            0 <= i < r.1.len() && 0 <= k < r.0.len() ==> #[trigger] r.1@[i]@[k] == amount_of(hosts@[i]@, r.0@[k]@),
{
    let names = resource_names(hosts);
    proof {
        lemma_first_seen(host_resource_names(hosts@));
        assert forall|i: int, j: int|
            0 <= i < hosts.len() && 0 <= j < hosts@[i].len() implies text_views(names@).contains(#[trigger] hosts@[i]@[j].0@) by {
            lemma_host_names_contain(hosts@, i, j);
        }
    }
    let table = capacity_matrix(&names, hosts);
    (names, table)
}

/// Whether every item of every row names one of `names`.
pub fn all_resources_known(names: &Vec<String>, rows: &Vec<Vec<(String, u64)>>) -> (r: bool)
    ensures
        r == forall|i: int, j: int|
            0 <= i < rows.len() && 0 <= j < rows@[i].len() ==> text_views(names@).contains(#[trigger] rows@[i]@[j].0@),
{
    let mut i: usize = 0;
    while i < rows.len()
        invariant
            i <= rows.len(),
            forall|a: int, j: int| 0 <= a < i && 0 <= j < rows@[a].len() ==> text_views(names@).contains(#[trigger] rows@[a]@[j].0@),
        decreases rows.len() - i,
    {
        let mut j: usize = 0;
        while j < rows[i].len()
            invariant
                i < rows.len(),
                j <= rows@[i as int].len(),
                forall|a: int, b: int| 0 <= a < i && 0 <= b < rows@[a].len() ==> text_views(names@).contains(#[trigger] rows@[a]@[b].0@),
                forall|b: int| 0 <= b < j ==> text_views(names@).contains(#[trigger] rows@[i as int]@[b].0@),
            decreases rows@[i as int].len() - j,
        {
            if resource_position(names, &rows[i][j].0).is_none() {
                return false;
            }
            j = j + 1;
        }
        i = i + 1;
    }
    true
}

/// The amount of a resource is that of the last item that names it, and 0
/// when no item names it.
pub proof fn lemma_amount_of(items: Seq<(String, u64)>, name: Seq<char>)
    ensures
        (forall|k: int| 0 <= k < items.len() ==> #[trigger] items[k].0@ != name) ==> amount_of(items, name) == 0,
        forall|j: int|
            0 <= j < items.len() && #[trigger] items[j].0@ == name && (forall|k: int| j < k < items.len() ==> #[trigger] items[k].0@ != name)
                ==> amount_of(items, name) == items[j].1,
    decreases items.len(),
{
    if items.len() > 0 {
        let rest = items.drop_last();
        lemma_amount_of(rest, name);
        if items.last().0@ != name {
            assert forall|j: int|
                0 <= j < items.len() && #[trigger] items[j].0@ == name && (forall|k: int| j < k < items.len() ==> #[trigger] items[k].0@ != name)
                    implies amount_of(items, name) == items[j].1 by {
                assert(j < items.len() - 1);
                assert(rest[j] == items[j]);
                assert forall|k: int| j < k < rest.len() implies #[trigger] rest[k].0@ != name by {
                    assert(rest[k] == items[k]);
                }
            }
            if forall|k: int| 0 <= k < items.len() ==> #[trigger] items[k].0@ != name {
                assert forall|k: int| 0 <= k < rest.len() implies #[trigger] rest[k].0@ != name by {
                    assert(rest[k] == items[k]);
                }
            }
        } else {
            assert(items[items.len() - 1].0@ == name);
        }
    }
}

/// Names already numbered keep their numbers when more names follow: the
/// numbering of a list is a prefix of the numbering of any longer list.
pub proof fn lemma_first_seen_prefix(names: Seq<Seq<char>>, more: Seq<Seq<char>>)
    ensures
        first_seen(names).len() <= first_seen(names + more).len(),
        first_seen(names) == first_seen(names + more).take(first_seen(names).len() as int),
    decreases more.len(),
{
    if more.len() == 0 {
        assert(names + more =~= names);
        assert(first_seen(names).take(first_seen(names).len() as int) =~= first_seen(names));
    } else {
        let shorter = more.drop_last();
        lemma_first_seen_prefix(names, shorter);
        assert((names + more).drop_last() =~= names + shorter);
        assert((names + more).last() == more.last());
        let before = first_seen(names + shorter);
        if !before.contains(more.last()) {
            assert(before.push(more.last()).take(first_seen(names).len() as int) =~= before.take(
                first_seen(names).len() as int,
            ));
        }
    }
}

} // verus!

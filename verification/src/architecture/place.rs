//! Where groups and services stand.

use vstd::prelude::*;

use crate::advance::place::lengths::{bounded, diff, minus, plus, sum};
use crate::advance::route::geometry::{greater, most};
use crate::advance::scene::Px;
use crate::architecture::arrange::{
    are_placed, arrange, box_at, group_size, sizes_fit,
};
use crate::architecture::{
    indices_exist, lemma_rank, level, nests, ArchGroup, ArchService, Architecture,
};

verus! {

/// Canvas margin.
pub const PAD: Px = 1536000;

pub const SERVICE_W: Px = 9600000;

pub const SERVICE_H: Px = 4480000;

/// Space between the outermost groups.
pub const GROUP_GAP: Px = 3200000;

/// What stands directly in a group.
#[derive(Debug, Clone, Copy, PartialEq, Eq, Structural)]
pub enum Kid {
    Group(usize),
    Service(usize),
}

/// The groups in group `g` among the first `k`.
pub open spec fn group_kids(groups: Seq<ArchGroup>, g: int, k: int) -> Seq<Kid>
    decreases k,
{
    if k <= 0 {
        Seq::empty()
    } else if groups[k - 1].parent matches Some(p) && p == g {
        group_kids(groups, g, k - 1).push(Kid::Group((k - 1) as usize))
    } else {
        group_kids(groups, g, k - 1)
    }
}

/// The services in group `g` among the first `k`.
pub open spec fn service_kids(services: Seq<ArchService>, g: int, k: int) -> Seq<Kid>
    decreases k,
{
    if k <= 0 {
        Seq::empty()
    } else if services[k - 1].group matches Some(p) && p == g {
        service_kids(services, g, k - 1).push(Kid::Service((k - 1) as usize))
    } else {
        service_kids(services, g, k - 1)
    }
}

/// What stands directly in group `g`: groups, then services.
pub open spec fn kids(d: Architecture, g: int) -> Seq<Kid> {
    group_kids(d.groups@, g, d.groups@.len() as int) + service_kids(
        d.services@,
        g,
        d.services@.len() as int,
    )
}

/// Whether everything in a list stands in group `g`.
pub open spec fn all_in(d: Architecture, list: Seq<Kid>, g: int) -> bool {
    forall|i: int| 0 <= i < list.len() ==> stands_in(d, #[trigger] list[i], g)
}

pub open spec fn stands_in(d: Architecture, kid: Kid, g: int) -> bool {
    match kid {
        Kid::Group(c) => c < d.groups@.len() && (d.groups@[c as int].parent matches Some(p) && p
            == g),
        Kid::Service(s) => s < d.services@.len() && (d.services@[s as int].group matches Some(p)
            && p == g),
    }
}

fn list_kids(d: &Architecture, g: usize) -> (r: Vec<Kid>)
    ensures
        r@ == kids(*d, g as int),
        all_in(*d, r@, g as int),
{
    let mut r: Vec<Kid> = Vec::new();
    let mut k: usize = 0;
    while k < d.groups.len()
        invariant
            k <= d.groups@.len(),
            r@ == group_kids(d.groups@, g as int, k as int),
            all_in(*d, r@, g as int),
        decreases d.groups@.len() - k,
    {
        if let Some(p) = d.groups[k].parent {
            if p == g {
                assert(stands_in(*d, Kid::Group(k), g as int));
                r.push(Kid::Group(k));
            }
        }
        k += 1;
    }
    let ghost first = r@;
    let mut s: usize = 0;
    assert(r@ =~= first + service_kids(d.services@, g as int, 0));
    while s < d.services.len()
        invariant
            s <= d.services@.len(),
            r@ == first + service_kids(d.services@, g as int, s as int),
            all_in(*d, r@, g as int),
        decreases d.services@.len() - s,
    {
        if let Some(p) = d.services[s].group {
            if p == g {
                assert(stands_in(*d, Kid::Service(s), g as int));
                r.push(Kid::Service(s));
            }
        }
        s += 1;
        assert(r@ =~= first + service_kids(d.services@, g as int, s as int));
    }
    r
}

/// The sizes of what stands directly in group `g`.
pub open spec fn kid_sizes(d: Architecture, g: int) -> Seq<(Px, Px)>
    decreases d.groups@.len() - level(d, g), 0nat,
{
    let list = kids(d, g);
    Seq::new(
        list.len(),
        |i: int|
            match list[i] {
                Kid::Service(_) => (SERVICE_W, SERVICE_H),
                Kid::Group(c) => if level(d, c as int) == level(d, g) + 1 && level(d, c as int)
                    <= d.groups@.len() {
                    let s = size(d, c as int);
                    (s.0 as Px, s.1 as Px)
                } else {
                    (0, 0)
                },
            },
    )
}

/// The size of a group.
pub open spec fn size(d: Architecture, g: int) -> (int, int)
    decreases d.groups@.len() - level(d, g), 1nat,
{
    group_size(kid_sizes(d, g))
}

fn size_kids(d: &Architecture, g: usize) -> (r: Vec<(Px, Px)>)
    requires
        nests(*d),
        g < d.groups@.len(),
    ensures
        r@ == kid_sizes(*d, g as int),
        sizes_fit(r@),
    decreases d.groups@.len() - level(*d, g as int), 0nat,
{
    let list = list_kids(d, g);
    let ghost want = kid_sizes(*d, g as int);
    let mut r: Vec<(Px, Px)> = Vec::new();
    let mut i: usize = 0;
    while i < list.len()
        invariant
            i <= list@.len(),
            nests(*d),
            g < d.groups@.len(),
            list@ == kids(*d, g as int),
            all_in(*d, list@, g as int),
            want == kid_sizes(*d, g as int),
            r@.len() == i,
            sizes_fit(r@),
            forall|k: int| 0 <= k < i ==> #[trigger] r@[k] == want[k],
        decreases list@.len() - i,
    {
        assert(stands_in(*d, list@[i as int], g as int));
        match list[i] {
            Kid::Service(_) => {
                r.push((SERVICE_W, SERVICE_H));
            },
            Kid::Group(c) => {
                proof {
                    assert(d.groups@[c as int].parent == Some(g));
                    lemma_rank(d.groups@, c as int, d.groups@.len() as int);
                    assert(level(*d, c as int) == level(*d, g as int) + 1);
                }
                let s = size_group(d, c);
                r.push(s);
            },
        }
        i += 1;
    }
    assert(r@ =~= want);
    r
}

fn size_group(d: &Architecture, g: usize) -> (r: (Px, Px))
    requires
        nests(*d),
        g < d.groups@.len(),
    ensures
        (r.0 as int, r.1 as int) == size(*d, g as int),
        bounded(r.0 as int),
        bounded(r.1 as int),
    decreases d.groups@.len() - level(*d, g as int), 1nat,
{
    let sizes = size_kids(d, g);
    let (_, w, h) = arrange(&sizes);
    (w, h)
}

/// The left side of the outermost group behind the first `i` groups.
pub open spec fn top_x(d: Architecture, i: int) -> int
    decreases i,
{
    if i <= 0 {
        PAD as int
    } else if d.groups@[i - 1].parent is None {
        plus(top_x(d, i - 1), plus(size(d, i - 1).0, GROUP_GAP as int))
    } else {
        top_x(d, i - 1)
    }
}

/// The height of the highest outermost group among the first `i` groups.
pub open spec fn top_h(d: Architecture, i: int) -> int
    decreases i,
{
    if i <= 0 {
        0
    } else if d.groups@[i - 1].parent is None {
        most(top_h(d, i - 1), size(d, i - 1).1)
    } else {
        top_h(d, i - 1)
    }
}

/// The size of the canvas.
pub open spec fn canvas(d: Architecture) -> (int, int) {
    let x = top_x(d, d.groups@.len() as int);
    (
        if x > PAD {
            plus(minus(x, GROUP_GAP as int), PAD as int)
        } else {
            2 * PAD
        },
        plus(top_h(d, d.groups@.len() as int), 2 * PAD),
    )
}

/// The position of something in a list, from `i` on.
pub open spec fn kid_from(list: Seq<Kid>, kid: Kid, i: int) -> int
    decreases list.len() - i,
{
    if i < 0 || i >= list.len() || list[i] == kid {
        i
    } else {
        kid_from(list, kid, i + 1)
    }
}

/// Where something stands in group `g`.
pub open spec fn inside(d: Architecture, g: int, kid: Kid) -> (int, int) {
    box_at(kid_sizes(d, g), kid_from(kids(d, g), kid, 0))
}

/// The top left corner of a group.
pub open spec fn group_at(d: Architecture, i: int) -> (int, int)
    decreases level(d, i),
{
    match d.groups@[i].parent {
        Some(p) => if 0 <= level(d, p as int) < level(d, i) {
            let a = group_at(d, p as int);
            let b = inside(d, p as int, Kid::Group(i as usize));
            (plus(a.0, b.0), plus(a.1, b.1))
        } else {
            (0, 0)
        },
        None => (top_x(d, i), PAD as int),
    }
}

/// The top left corner of a service; one in no group has no place of its
/// own.
pub open spec fn service_at(d: Architecture, s: int) -> (int, int) {
    match d.services@[s].group {
        Some(g) => {
            let a = group_at(d, g as int);
            let b = inside(d, g as int, Kid::Service(s as usize));
            (plus(a.0, b.0), plus(a.1, b.1))
        },
        None => (0, 0),
    }
}

proof fn lemma_group_kid(groups: Seq<ArchGroup>, g: int, k: int, i: int)
    requires
        0 <= i < k <= groups.len(),
        groups.len() <= usize::MAX,
        groups[i].parent matches Some(p) && p == g,
    ensures
        group_kids(groups, g, k).contains(Kid::Group(i as usize)),
    decreases k,
{
    let all = group_kids(groups, g, k);
    if i < k - 1 {
        lemma_group_kid(groups, g, k - 1, i);
        let before = group_kids(groups, g, k - 1);
        let j = choose|j: int| 0 <= j < before.len() && before[j] == Kid::Group(i as usize);
        assert(all[j] == before[j]);
    } else {
        assert(all.last() == Kid::Group(i as usize));
    }
}

proof fn lemma_service_kid(services: Seq<ArchService>, g: int, k: int, i: int)
    requires
        0 <= i < k <= services.len(),
        services.len() <= usize::MAX,
        services[i].group matches Some(p) && p == g,
    ensures
        service_kids(services, g, k).contains(Kid::Service(i as usize)),
    decreases k,
{
    let all = service_kids(services, g, k);
    if i < k - 1 {
        lemma_service_kid(services, g, k - 1, i);
        let before = service_kids(services, g, k - 1);
        let j = choose|j: int| 0 <= j < before.len() && before[j] == Kid::Service(i as usize);
        assert(all[j] == before[j]);
    } else {
        assert(all.last() == Kid::Service(i as usize));
    }
}

/// Everything that stands in a group is listed there.
pub proof fn law_group_lists_its_kids(d: Architecture, kid: Kid, g: int)
    requires
        stands_in(d, kid, g),
        d.groups@.len() <= usize::MAX,
        d.services@.len() <= usize::MAX,
    ensures
        kids(d, g).contains(kid),
{
    let a = group_kids(d.groups@, g, d.groups@.len() as int);
    let b = service_kids(d.services@, g, d.services@.len() as int);
    match kid {
        Kid::Group(c) => {
            lemma_group_kid(d.groups@, g, d.groups@.len() as int, c as int);
            let j = choose|j: int| 0 <= j < a.len() && a[j] == kid;
            assert((a + b)[j] == kid);
        },
        Kid::Service(s) => {
            lemma_service_kid(d.services@, g, d.services@.len() as int, s as int);
            let j = choose|j: int| 0 <= j < b.len() && b[j] == kid;
            assert((a + b)[a.len() + j] == kid);
        },
    }
}

proof fn lemma_kid_from(list: Seq<Kid>, kid: Kid, i: int, j: int)
    requires
        0 <= i <= j < list.len(),
        list[j] == kid,
    ensures
        i <= kid_from(list, kid, i) <= j,
    decreases list.len() - i,
{
    if list[i] != kid {
        lemma_kid_from(list, kid, i + 1, j);
    }
}

/// The contents of each group, with their places.
pub struct Plan {
    pub lists: Vec<Vec<Kid>>,
    pub places: Vec<Vec<(Px, Px)>>,
    pub sizes: Vec<(Px, Px)>,
}

/// Whether a plan is that of the diagram.
pub open spec fn is_plan(p: Plan, d: Architecture) -> bool {
    let n = d.groups@.len();
    &&& p.lists@.len() == n && p.places@.len() == n && p.sizes@.len() == n
    &&& forall|g: int| 0 <= g < n ==> (#[trigger] p.lists@[g])@ == kids(d, g)
    &&& forall|g: int| 0 <= g < n ==> are_placed(kid_sizes(d, g), (#[trigger] p.places@[g])@)
    &&& forall|g: int|
        0 <= g < n ==> ((#[trigger] p.sizes@[g]).0 as int, p.sizes@[g].1 as int) == size(d, g)
            && bounded(p.sizes@[g].0 as int) && bounded(p.sizes@[g].1 as int)
}

/// Arrange every group.
pub fn plan(d: &Architecture) -> (r: Plan)
    requires
        nests(*d),
    ensures
        is_plan(r, *d),
{
    let mut lists: Vec<Vec<Kid>> = Vec::new();
    let mut places: Vec<Vec<(Px, Px)>> = Vec::new();
    let mut sizes: Vec<(Px, Px)> = Vec::new();
    let mut g: usize = 0;
    while g < d.groups.len()
        invariant
            g <= d.groups@.len(),
            nests(*d),
            lists@.len() == g && places@.len() == g && sizes@.len() == g,
            forall|i: int| 0 <= i < g ==> (#[trigger] lists@[i])@ == kids(*d, i),
            forall|i: int| 0 <= i < g ==> are_placed(kid_sizes(*d, i), (#[trigger] places@[i])@),
            forall|i: int|
                0 <= i < g ==> ((#[trigger] sizes@[i]).0 as int, sizes@[i].1 as int) == size(*d, i)
                    && bounded(sizes@[i].0 as int) && bounded(sizes@[i].1 as int),
        decreases d.groups@.len() - g,
    {
        let s = size_kids(d, g);
        let (at, w, h) = arrange(&s);
        lists.push(list_kids(d, g));
        places.push(at);
        sizes.push((w, h));
        g += 1;
    }
    Plan { lists, places, sizes }
}

fn find_kid(list: &Vec<Kid>, kid: Kid) -> (r: usize)
    requires
        list@.contains(kid),
    ensures
        r == kid_from(list@, kid, 0),
        r < list@.len(),
{
    let ghost j = choose|j: int| 0 <= j < list@.len() && list@[j] == kid;
    proof {
        lemma_kid_from(list@, kid, 0, j);
    }
    let n: usize = list.len();
    let mut i: usize = 0;
    while list[i] != kid
        invariant
            n == list@.len(),
            i <= j < n,
            list@[j] == kid,
            kid_from(list@, kid, 0) == kid_from(list@, kid, i as int),
        decreases list@.len() - i,
    {
        i += 1;
    }
    i
}

fn place_inside(d: &Architecture, p: &Plan, g: usize, kid: Kid) -> (r: (Px, Px))
    requires
        is_plan(*p, *d),
        g < d.groups@.len(),
        stands_in(*d, kid, g as int),
    ensures
        (r.0 as int, r.1 as int) == inside(*d, g as int, kid),
        bounded(r.0 as int),
        bounded(r.1 as int),
{
    let n: usize = d.groups.len();
    let m: usize = d.services.len();
    proof {
        assert(n == d.groups@.len() && m == d.services@.len());
        law_group_lists_its_kids(*d, kid, g as int);
        assert(p.lists@[g as int]@ == kids(*d, g as int));
        assert(are_placed(kid_sizes(*d, g as int), p.places@[g as int]@));
    }
    let k: usize = find_kid(&p.lists[g], kid);
    assert(kid_sizes(*d, g as int).len() == kids(*d, g as int).len());
    assert(bounded(p.places@[g as int]@[k as int].0 as int));
    p.places[g][k]
}

/// The top left corner of a group.
pub fn place_group(d: &Architecture, p: &Plan, i: usize) -> (r: (Px, Px))
    requires
        nests(*d),
        is_plan(*p, *d),
        i < d.groups@.len(),
    ensures
        (r.0 as int, r.1 as int) == group_at(*d, i as int),
        bounded(r.0 as int),
        bounded(r.1 as int),
    decreases level(*d, i as int),
{
    match d.groups[i].parent {
        Some(g) => {
            proof {
                assert(d.groups@[i as int].parent == Some(g));
                lemma_rank(d.groups@, g as int, d.groups@.len() as int);
            }
            let a = place_group(d, p, g);
            assert(stands_in(*d, Kid::Group(i), g as int));
            let b = place_inside(d, p, g, Kid::Group(i));
            (sum(a.0, b.0), sum(a.1, b.1))
        },
        None => {
            let mut x: Px = PAD;
            let mut k: usize = 0;
            while k < i
                invariant
                    k <= i < d.groups@.len(),
                    is_plan(*p, *d),
                    bounded(x as int),
                    x == top_x(*d, k as int),
                decreases i - k,
            {
                if d.groups[k].parent.is_none() {
                    assert(bounded(p.sizes@[k as int].0 as int));
                    x = sum(x, sum(p.sizes[k].0, GROUP_GAP));
                }
                k += 1;
            }
            (x, PAD)
        },
    }
}

/// The top left corner of a service.
pub fn place_service(d: &Architecture, p: &Plan, s: usize) -> (r: (Px, Px))
    requires
        nests(*d),
        indices_exist(*d),
        is_plan(*p, *d),
        s < d.services@.len(),
    ensures
        (r.0 as int, r.1 as int) == service_at(*d, s as int),
        bounded(r.0 as int),
        bounded(r.1 as int),
{
    match d.services[s].group {
        Some(g) => {
            assert(d.services@[s as int].group == Some(g));
            let a = place_group(d, p, g);
            assert(stands_in(*d, Kid::Service(s), g as int));
            let b = place_inside(d, p, g, Kid::Service(s));
            (sum(a.0, b.0), sum(a.1, b.1))
        },
        None => (0, 0),
    }
}

/// The size of the canvas.
pub fn canvas_of(d: &Architecture, p: &Plan) -> (r: (Px, Px))
    requires
        is_plan(*p, *d),
    ensures
        (r.0 as int, r.1 as int) == canvas(*d),
{
    let mut x: Px = PAD;
    let mut h: Px = 0;
    let mut i: usize = 0;
    while i < d.groups.len()
        invariant
            i <= d.groups@.len(),
            is_plan(*p, *d),
            bounded(x as int) && bounded(h as int),
            x == top_x(*d, i as int),
            h == top_h(*d, i as int),
        decreases d.groups@.len() - i,
    {
        if d.groups[i].parent.is_none() {
            assert(bounded(p.sizes@[i as int].0 as int) && bounded(p.sizes@[i as int].1 as int));
            x = sum(x, sum(p.sizes[i].0, GROUP_GAP));
            h = greater(h, p.sizes[i].1);
        }
        i += 1;
    }
    let w: Px = if x > PAD {
        sum(diff(x, GROUP_GAP), PAD)
    } else {
        2 * PAD
    };
    (w, sum(h, 2 * PAD))
}

} // verus!

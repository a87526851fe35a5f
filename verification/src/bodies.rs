//! Bodies of the sandbox as the physics steps see them: their collision
//! layers, which pairs of them attract each other, when a new body is
//! drawn, and in which order collision scripts run.
use vstd::prelude::*;

verus! {

/// Collision layers of a body: the layers it belongs to and the layers it
/// interacts with, one bit per layer.
#[derive(Debug, Clone, Copy, PartialEq, Eq, Structural)]
pub struct Layers {
    pub memberships: u32,
    pub filters: u32,
}

impl Layers {
    /// Layers from their two masks.
    pub fn from_bits(memberships: u32, filters: u32) -> (l: Layers)
        ensures
            l.memberships == memberships,
            l.filters == filters,
    {
        Layers { memberships, filters }
    }

    /// The layers of a body drawn on collision layer `layer` (0 to 31): it
    /// belongs to that one layer and interacts with that one layer.
    pub fn of_collision_layer(layer: u32) -> (l: Layers)
        requires
            layer < 32,
        ensures
            l.memberships == 1u32 << layer,
            l.filters == 1u32 << layer,
    {
        let mask: u32 = 1u32 << layer;
        Layers::from_bits(mask, mask)
    }

    /// Whether two bodies have the same layers.
    pub fn same_as(&self, other: &Layers) -> (b: bool)
        ensures
            b == (*self == *other),
    {
        self.memberships == other.memberships && self.filters == other.filters
    }
}

/// Bodies drawn on two collision layers have the same layers exactly when
/// the two layers are the same.
pub proof fn law_collision_layers_are_distinct(a: u32, b: u32)
    requires
        a < 32,
        b < 32,
    ensures
        (1u32 << a) == (1u32 << b) <==> a == b,
{
    assert(a < 32 && b < 32 && (1u32 << a) == (1u32 << b) ==> a == b) by (bit_vector);
}

/// A new body is drawn when the left button is released while space is not
/// held, unless the release ends a drag that the user interface had taken.
pub fn spawn_requested(space_held: bool, left_released: bool, ui_focus_changed: bool) -> (b: bool)
    ensures
        b == (!space_held && left_released && !ui_focus_changed),
{
    !space_held && left_released && !ui_focus_changed
}

/// A body as the attraction step sees it: its entity and its layers.
#[derive(Debug, Clone, Copy, PartialEq, Eq, Structural)]
pub struct Body {
    pub entity: u64,
    pub layers: Layers,
}

/// Bodies `i` and `j` attract each other: same layers, different entities.
pub open spec fn attracts(b: Seq<Body>, i: int, j: int) -> bool {
    b[i].layers == b[j].layers && b[i].entity != b[j].entity
}

/// The pairs `(i, j)` with `j < m` in which `i` attracts `j`, by increasing `j`.
pub open spec fn pairs_in_row(b: Seq<Body>, i: int, m: int) -> Seq<(usize, usize)>
    decreases m,
{
    if m <= 0 {
        seq![]
    } else {
        pairs_in_row(b, i, m - 1) + if attracts(b, i, m - 1) {
            seq![(i as usize, (m - 1) as usize)]
        } else {
            seq![]
        }
    }
}

/// The rows of the first `m` bodies, one after the other.
pub open spec fn pairs_upto(b: Seq<Body>, m: int) -> Seq<(usize, usize)>
    decreases m,
{
    if m <= 0 {
        seq![]
    } else {
        pairs_upto(b, m - 1) + pairs_in_row(b, m - 1, b.len() as int)
    }
}

/// All ordered pairs of bodies that attract each other, in the order of a
/// loop over the bodies nested in a loop over the bodies.
pub open spec fn attraction_pairs_of(b: Seq<Body>) -> Seq<(usize, usize)> {
    pairs_upto(b, b.len() as int)
}

/// The ordered pairs `(i, j)` of indices into `bodies` whose bodies pull on
/// each other: for each body `i` in turn, each body `j` in turn with the
/// same layers and another entity. Each unordered pair comes twice.
pub fn attraction_pairs(bodies: &Vec<Body>) -> (pairs: Vec<(usize, usize)>)
    ensures
        pairs@ == attraction_pairs_of(bodies@),
{
    let n = bodies.len();
    let mut pairs: Vec<(usize, usize)> = Vec::new();
    let mut i: usize = 0;
    while i < n
        invariant
            n == bodies.len(),
            i <= n,
            pairs@ == pairs_upto(bodies@, i as int),
        decreases n - i,
    {
        let ghost before = pairs@;
        let mut j: usize = 0;
        while j < n
            invariant
                n == bodies.len(),
                i < n,
                j <= n,
                pairs@ == before + pairs_in_row(bodies@, i as int, j as int),
            decreases n - j,
        {
            if bodies[i].layers.same_as(&bodies[j].layers) && bodies[i].entity != bodies[j].entity {
                pairs.push((i, j));
            }
            assert(pairs@ =~= before + pairs_in_row(bodies@, i as int, j + 1));
            j = j + 1;
        }
        i = i + 1;
    }
    pairs
}

proof fn lemma_pairs_in_row_members(b: Seq<Body>, i: int, m: int, x: usize, y: usize)
    requires
        0 <= i < b.len(),
        m <= b.len(),
        b.len() <= usize::MAX,
    ensures
        pairs_in_row(b, i, m).contains((x, y)) <==> (x == i && y < m && attracts(b, i, y as int)),
    decreases m,
{
    if m > 0 {
        lemma_pairs_in_row_members(b, i, m - 1, x, y);
        let head = pairs_in_row(b, i, m - 1);
        let tail: Seq<(usize, usize)> = if attracts(b, i, m - 1) {
            seq![(i as usize, (m - 1) as usize)]
        } else {
            seq![]
        };
        let whole = head + tail;
        if whole.contains((x, y)) {
            let k = choose|k: int| 0 <= k < whole.len() && whole[k] == (x, y);
            if k < head.len() {
                assert(head[k] == whole[k]);
            } else {
                assert(tail[k - head.len()] == whole[k]);
            }
        }
        if x == i && y < m && attracts(b, i, y as int) {
            if y < m - 1 {
                let k = choose|k: int| 0 <= k < head.len() && head[k] == (x, y);
                assert(whole[k] == (x, y));
            } else {
                assert(whole[head.len() as int] == (x, y));
            }
        }
    }
}

proof fn lemma_pairs_upto_members(b: Seq<Body>, m: int, x: usize, y: usize)
    requires
        m <= b.len(),
        b.len() <= usize::MAX,
    ensures
        pairs_upto(b, m).contains((x, y)) <==> (x < m && y < b.len() && attracts(
            b,
            x as int,
            y as int,
        )),
    decreases m,
{
    if m > 0 {
        lemma_pairs_upto_members(b, m - 1, x, y);
        lemma_pairs_in_row_members(b, m - 1, b.len() as int, x, y);
        let head = pairs_upto(b, m - 1);
        let tail = pairs_in_row(b, m - 1, b.len() as int);
        let whole = head + tail;
        if whole.contains((x, y)) {
            let k = choose|k: int| 0 <= k < whole.len() && whole[k] == (x, y);
            if k < head.len() {
                assert(head[k] == whole[k]);
            } else {
                assert(tail[k - head.len()] == whole[k]);
            }
        }
        if x < m && y < b.len() && attracts(b, x as int, y as int) {
            if x < m - 1 {
                let k = choose|k: int| 0 <= k < head.len() && head[k] == (x, y);
                assert(whole[k] == (x, y));
            } else {
                let k = choose|k: int| 0 <= k < tail.len() && tail[k] == (x, y);
                assert(whole[head.len() + k] == (x, y));
            }
        }
    }
}

/// Two bodies pull on each other exactly when they have the same layers
/// and are different entities; the attraction is mutual, and no body pulls
/// on itself.
pub proof fn law_attraction_pairs(b: Seq<Body>, i: usize, j: usize)
    requires
        b.len() <= usize::MAX,
    ensures
        attraction_pairs_of(b).contains((i, j)) <==> (i < b.len() && j < b.len()
            && b[i as int].layers == b[j as int].layers && b[i as int].entity != b[j
            as int].entity),
        attraction_pairs_of(b).contains((i, j)) ==> attraction_pairs_of(b).contains((j, i)),
        !attraction_pairs_of(b).contains((i, i)),
{
    lemma_pairs_upto_members(b, b.len() as int, i, j);
    lemma_pairs_upto_members(b, b.len() as int, j, i);
    lemma_pairs_upto_members(b, b.len() as int, i, i);
}

/// A collision between two entities, and whether it started this frame.
#[derive(Debug, Clone, Copy, PartialEq, Eq, Structural)]
pub struct Contact {
    pub started: bool,
    pub entity1: u64,
    pub entity2: u64,
}

/// The entities whose scripts run for these contacts: for each contact that
/// started, its first entity, then its second.
pub open spec fn scripted_entities_of(c: Seq<Contact>) -> Seq<u64>
    decreases c.len(),
{
    if c.len() == 0 {
        seq![]
    } else {
        scripted_entities_of(c.drop_last()) + if c.last().started {
            seq![c.last().entity1, c.last().entity2]
        } else {
            seq![]
        }
    }
}

/// The entities whose collision scripts run, in order: both entities of
/// each contact that started, first then second.
pub fn scripted_entities(contacts: &Vec<Contact>) -> (entities: Vec<u64>)
    ensures
        entities@ == scripted_entities_of(contacts@),
{
    let mut entities: Vec<u64> = Vec::new();
    let mut i: usize = 0;
    while i < contacts.len()
        invariant
            i <= contacts.len(),
            entities@ == scripted_entities_of(contacts@.take(i as int)),
        decreases contacts.len() - i,
    {
        let c = contacts[i];
        assert(contacts@.take(i + 1).drop_last() =~= contacts@.take(i as int));
        if c.started {
            entities.push(c.entity1);
            entities.push(c.entity2);
        }
        assert(entities@ =~= scripted_entities_of(contacts@.take(i + 1)));
        i = i + 1;
    }
    assert(contacts@.take(contacts.len() as int) =~= contacts@);
    entities
}


/// Contact lists can be read piece by piece: the scripts of two lists of
/// contacts, one after the other, are the scripts of the first list
/// followed by those of the second.
pub proof fn law_scripted_entities_concat(c: Seq<Contact>, d: Seq<Contact>)
    ensures
        scripted_entities_of(c + d) == scripted_entities_of(c) + scripted_entities_of(d),
    decreases d.len(),
{
    if d.len() == 0 {
        assert(c + d =~= c);
        assert(scripted_entities_of(c) + scripted_entities_of(d) =~= scripted_entities_of(c));
    } else {
        let cd = c + d;
        assert(cd.drop_last() =~= c + d.drop_last());
        assert(cd.last() == d.last());
        law_scripted_entities_concat(c, d.drop_last());
        let tail: Seq<u64> = if d.last().started {
            seq![d.last().entity1, d.last().entity2]
        } else {
            seq![]
        };
        assert(scripted_entities_of(cd) =~= scripted_entities_of(c) + (scripted_entities_of(
            d.drop_last(),
        ) + tail));
    }
}

/// No contacts run no scripts; one contact that started runs the script of
/// its first entity, then of its second; one that did not start runs none.
pub proof fn law_scripted_entities_single(x: Contact)
    ensures
        scripted_entities_of(Seq::<Contact>::empty()) == Seq::<u64>::empty(),
        x.started ==> scripted_entities_of(seq![x]) == seq![x.entity1, x.entity2],
        !x.started ==> scripted_entities_of(seq![x]) == Seq::<u64>::empty(),
{
    assert(scripted_entities_of(Seq::<Contact>::empty()) == Seq::<u64>::empty());
    assert(seq![x].drop_last() =~= Seq::<Contact>::empty());
    assert(scripted_entities_of(seq![x].drop_last()) == Seq::<u64>::empty());
    assert(seq![x].last() == x);
    assert(Seq::<u64>::empty() + seq![x.entity1, x.entity2] =~= seq![x.entity1, x.entity2]);
    assert(Seq::<u64>::empty() + Seq::<u64>::empty() =~= Seq::<u64>::empty());
}

/// Pair `p` comes before pair `q` in the order of a loop over the first
/// index nested around a loop over the second.
pub open spec fn pair_before(p: (usize, usize), q: (usize, usize)) -> bool {
    p.0 < q.0 || (p.0 == q.0 && p.1 < q.1)
}

/// Every pair of the list comes strictly before every later one.
pub open spec fn in_nested_order(s: Seq<(usize, usize)>) -> bool {
    forall|k: int, l: int| 0 <= k < l < s.len() ==> pair_before(#[trigger] s[k], #[trigger] s[l])
}

proof fn lemma_pairs_in_row_order(b: Seq<Body>, i: int, m: int)
    requires
        0 <= i < b.len(),
        m <= b.len(),
        b.len() <= usize::MAX,
    ensures
        in_nested_order(pairs_in_row(b, i, m)),
        forall|k: int|
            0 <= k < pairs_in_row(b, i, m).len() ==> (#[trigger] pairs_in_row(b, i, m)[k]).0 == i
                && pairs_in_row(b, i, m)[k].1 < m,
    decreases m,
{
    if m > 0 {
        lemma_pairs_in_row_order(b, i, m - 1);
        let head = pairs_in_row(b, i, m - 1);
        let tail: Seq<(usize, usize)> = if attracts(b, i, m - 1) {
            seq![(i as usize, (m - 1) as usize)]
        } else {
            seq![]
        };
        let whole = head + tail;
        assert(pairs_in_row(b, i, m) == whole);
        assert forall|k: int| 0 <= k < whole.len() implies (#[trigger] whole[k]).0 == i
            && whole[k].1 < m by {
            if k < head.len() {
                assert(whole[k] == head[k]);
            } else {
                assert(whole[k] == tail[k - head.len()]);
            }
        }
        assert forall|k: int, l: int| 0 <= k < l < whole.len() implies pair_before(
            #[trigger] whole[k],
            #[trigger] whole[l],
        ) by {
            if l < head.len() {
                assert(whole[k] == head[k]);
                assert(whole[l] == head[l]);
            } else {
                assert(whole[l] == tail[l - head.len()]);
                assert(whole[k] == head[k]);
            }
        }
    }
}

proof fn lemma_pairs_upto_order(b: Seq<Body>, m: int)
    requires
        m <= b.len(),
        b.len() <= usize::MAX,
    ensures
        in_nested_order(pairs_upto(b, m)),
        forall|k: int|
            0 <= k < pairs_upto(b, m).len() ==> (#[trigger] pairs_upto(b, m)[k]).0 < m,
    decreases m,
{
    if m > 0 {
        lemma_pairs_upto_order(b, m - 1);
        lemma_pairs_in_row_order(b, m - 1, b.len() as int);
        let head = pairs_upto(b, m - 1);
        let tail = pairs_in_row(b, m - 1, b.len() as int);
        let whole = head + tail;
        assert(pairs_upto(b, m) == whole);
        assert forall|k: int| 0 <= k < whole.len() implies (#[trigger] whole[k]).0 < m by {
            if k < head.len() {
                assert(whole[k] == head[k]);
            } else {
                assert(whole[k] == tail[k - head.len()]);
            }
        }
        assert forall|k: int, l: int| 0 <= k < l < whole.len() implies pair_before(
            #[trigger] whole[k],
            #[trigger] whole[l],
        ) by {
            if l < head.len() {
                assert(whole[k] == head[k]);
                assert(whole[l] == head[l]);
            } else if k >= head.len() {
                assert(whole[k] == tail[k - head.len()]);
                assert(whole[l] == tail[l - head.len()]);
            } else {
                assert(whole[k] == head[k]);
                assert(whole[l] == tail[l - head.len()]);
            }
        }
    }
}

/// The attracting pairs come in the order of the nested loops, each ordered
/// pair once: every pair comes strictly before every later one, so no pair
/// is listed twice and no attraction is applied twice.
pub proof fn law_attraction_pairs_once_in_order(b: Seq<Body>)
    requires
        b.len() <= usize::MAX,
    ensures
        in_nested_order(attraction_pairs_of(b)),
        forall|k: int, l: int|
            0 <= k < attraction_pairs_of(b).len() && 0 <= l < attraction_pairs_of(b).len() && k
                != l ==> #[trigger] attraction_pairs_of(b)[k] != #[trigger] attraction_pairs_of(b)[l],
{
    lemma_pairs_upto_order(b, b.len() as int);
    let s = attraction_pairs_of(b);
    assert forall|k: int, l: int| 0 <= k < s.len() && 0 <= l < s.len() && k != l implies #[trigger] s[k]
        != #[trigger] s[l] by {
        if k < l {
            assert(pair_before(s[k], s[l]));
        } else {
            assert(pair_before(s[l], s[k]));
        }
    }
}

} // verus!

//! What a place names: a local and the fields read out of it, and how two such
//! places relate.

use crate::mir::{Operand, Place, ProjElem};
use vstd::prelude::*;

verus! {

// ---------------------------------------------------------------- atoms

/// A local plus the leading run of field projections: `_3.1.0`. Anything past
/// the first downcast is folded into the prefix before it.
#[derive(Debug)]
pub struct Atom {
    pub local: usize,
    pub path: Vec<u32>,
}

/// An atom as a value: the local and its field path.
pub type AtomView = (usize, Seq<u32>);

impl View for Atom {
    type V = AtomView;

    open spec fn view(&self) -> AtomView {
        (self.local, self.path@)
    }
}

/// Path component for "some element of": indexing conflates positions but
/// keeps the container distinct from its elements.
pub const ANY_ELEM: u32 = 0xffff_ffff;

/// Paths stop growing at this length when they are composed.
pub const MAX_PATH: usize = 6;

/// `path` continued by as much of `tail` as the saturation length leaves
/// room for.
pub open spec fn extended_path(path: Seq<u32>, tail: Seq<u32>) -> Seq<u32> {
    let room: int = if path.len() < MAX_PATH {
        MAX_PATH - path.len()
    } else {
        0
    };
    path + tail.take(if tail.len() < room {
        tail.len() as int
    } else {
        room
    })
}

/// `a` extended by `tail`.
pub open spec fn extended_atom(a: AtomView, tail: Seq<u32>) -> AtomView {
    (a.0, extended_path(a.1, tail))
}

/// Two paths agree as far as both go.
pub open spec fn paths_agree(a: Seq<u32>, b: Seq<u32>) -> bool {
    forall|i: int| 0 <= i < a.len() && i < b.len() ==> #[trigger] a[i] == #[trigger] b[i]
}

/// One of the two places is the other or contains it.
pub open spec fn atoms_overlap(a: AtomView, b: AtomView) -> bool {
    a.0 == b.0 && paths_agree(a.1, b.1)
}

/// `decision` reads `stored` or a part of it.
pub open spec fn atom_inspects(decision: AtomView, stored: AtomView) -> bool {
    decision.0 == stored.0 && stored.1.is_prefix_of(decision.1)
}

/// A copy of a path.
pub fn copy_path(path: &[u32]) -> (r: Vec<u32>)
    ensures
        r@ == path@,
{
    let mut r: Vec<u32> = Vec::new();
    let mut i: usize = 0;
    while i < path.len()
        invariant
            i <= path.len(),
            r@ == path@.take(i as int),
        decreases path.len() - i,
    {
        r.push(path[i]);
        i = i + 1;
        assert(r@ == path@.take(i as int));
    }
    assert(path@.take(i as int) == path@);
    r
}

/// The elements of `path` from `from` on.
pub fn path_from(path: &[u32], from: usize) -> (r: Vec<u32>)
    requires
        from <= path@.len(),
    ensures
        r@ == path@.skip(from as int),
{
    let mut r: Vec<u32> = Vec::new();
    let mut i: usize = from;
    while i < path.len()
        invariant
            from <= i <= path.len(),
            r@ == path@.subrange(from as int, i as int),
        decreases path.len() - i,
    {
        r.push(path[i]);
        i = i + 1;
        assert(r@ == path@.subrange(from as int, i as int));
    }
    r
}

/// `a` is a leading part of `b`, or all of it.
pub fn is_prefix(a: &[u32], b: &[u32]) -> (r: bool)
    ensures
        r == a@.is_prefix_of(b@),
{
    if a.len() > b.len() {
        return false;
    }
    let mut i: usize = 0;
    while i < a.len()
        invariant
            i <= a.len() <= b.len(),
            forall|j: int| 0 <= j < i ==> a@[j] == b@[j],
        decreases a.len() - i,
    {
        if a[i] != b[i] {
            assert(b@.subrange(0, a@.len() as int)[i as int] == b@[i as int]);
            return false;
        }
        i = i + 1;
    }
    assert(a@ == b@.subrange(0, a@.len() as int));
    true
}

impl Atom {
    /// The whole of a local.
    pub fn whole(local: usize) -> (r: Atom)
        ensures
            r@ == (local, Seq::<u32>::empty()),
    {
        Atom { local, path: Vec::new() }
    }

    /// This place continued by `tail`. `node = node.next` in a loop composes
    /// without bound, so the path saturates.
    pub fn extended(&self, tail: &[u32]) -> (r: Atom)
        ensures
            r@ == extended_atom(self@, tail@),
    {
        let mut path = copy_path(&self.path);
        let room: usize = if path.len() < MAX_PATH {
            MAX_PATH - path.len()
        } else {
            0
        };
        let len: usize = if tail.len() < room {
            tail.len()
        } else {
            room
        };
        let mut i: usize = 0;
        while i < len
            invariant
                i <= len <= tail.len(),
                path@ == self.path@ + tail@.take(i as int),
            decreases len - i,
        {
            path.push(tail[i]);
            i = i + 1;
            assert(path@ == self.path@ + tail@.take(i as int));
        }
        Atom { local: self.local, path }
    }

    /// One of the two places is the other or contains it.
    pub fn overlaps(&self, other: &Atom) -> (r: bool)
        ensures
            r == atoms_overlap(self@, other@),
    {
        if self.local != other.local {
            return false;
        }
        let mut i: usize = 0;
        while i < self.path.len() && i < other.path.len()
            invariant
                i <= self.path.len(),
                i <= other.path.len(),
                forall|j: int| 0 <= j < i ==> self.path@[j] == other.path@[j],
            decreases self.path.len() - i,
        {
            if self.path[i] != other.path[i] {
                return false;
            }
            i = i + 1;
        }
        true
    }

    /// `self` (a decision atom) reads `stored` or a part of it. The reverse,
    /// a decision on the whole of something only part of which is stored, is
    /// not evidence about the part.
    pub fn inspects(&self, stored: &Atom) -> (r: bool)
        ensures
            r == atom_inspects(self@, stored@),
    {
        self.local == stored.local && is_prefix(&stored.path, &self.path)
    }

    /// The same place.
    pub fn same(&self, other: &Atom) -> (r: bool)
        ensures
            r == (self@ == other@),
    {
        if self.local != other.local || self.path.len() != other.path.len() {
            return false;
        }
        let r = is_prefix(&self.path, &other.path);
        assert(r ==> self.path@ == other.path@) by {
            if r {
                assert(other.path@.subrange(0, self.path@.len() as int) == other.path@);
            }
        }
        r
    }

    /// A copy of this atom.
    pub fn copied(&self) -> (r: Atom)
        ensures
            r@ == self@,
    {
        Atom { local: self.local, path: copy_path(&self.path) }
    }
}

/// A place overlaps itself, and overlapping goes both ways.
pub proof fn lemma_overlap_symmetric(a: AtomView, b: AtomView)
    ensures
        atoms_overlap(a, a),
        atoms_overlap(a, b) == atoms_overlap(b, a),
{
}

/// A decision that inspects a stored place overlaps it.
pub proof fn lemma_inspects_overlaps(decision: AtomView, stored: AtomView)
    requires
        atom_inspects(decision, stored),
    ensures
        atoms_overlap(decision, stored),
{
    assert forall|i: int|
        0 <= i < decision.1.len() && i < stored.1.len() implies #[trigger] decision.1[i]
        == #[trigger] stored.1[i] by {
        assert(decision.1.subrange(0, stored.1.len() as int)[i] == decision.1[i]);
    }
}

/// Composing never makes a path longer than the saturation length or than it
/// already was.
pub proof fn lemma_extended_path_saturates(path: Seq<u32>, tail: Seq<u32>)
    ensures
        extended_path(path, tail).len() <= if path.len() < MAX_PATH {
            MAX_PATH as nat
        } else {
            path.len()
        },
        path.is_prefix_of(extended_path(path, tail)),
{
    assert(path == extended_path(path, tail).subrange(0, path.len() as int));
}

// ------------------------------------------------------- places as atoms

/// How well an atom names what a projection actually read.
#[derive(Clone, Copy, Debug, PartialEq, Eq, Structural)]
pub enum Exactness {
    /// Pure field access: the atom is exact.
    Exact,
    /// A downcast appeared: this reads a variant payload of the atom.
    VariantPayload,
    /// Some other projection: the atom names more than was read.
    Inexact,
}

/// What a projection that is not modelled does to exactness: it can only lose
/// precision, and it cannot un-see a downcast.
pub open spec fn blurred(e: Exactness) -> Exactness {
    if e == Exactness::VariantPayload {
        Exactness::VariantPayload
    } else {
        Exactness::Inexact
    }
}

impl Exactness {
    /// What a projection that is not modelled does to exactness.
    pub fn blur(self) -> (r: Exactness)
        ensures
            r == blurred(self),
    {
        match self {
            Exactness::Exact | Exactness::Inexact => Exactness::Inexact,
            Exactness::VariantPayload => Exactness::VariantPayload,
        }
    }
}

/// Blurring twice is blurring once.
pub proof fn lemma_blur_absorbs(e: Exactness)
    ensures
        blurred(blurred(e)) == blurred(e),
        blurred(e) != Exactness::Exact,
{
}

/// A place as an atom, with how exact it is and the locals it indexes by.
#[derive(Debug)]
pub struct PlaceInfo {
    pub atom: Atom,
    pub exactness: Exactness,
    pub index_locals: Vec<usize>,
}

/// How exact the atom of a projection is: the first downcast makes it a
/// payload for good, the first projection that is not modelled makes it
/// inexact until a downcast.
pub open spec fn exactness_of(projection: Seq<ProjElem>) -> Exactness
    decreases projection.len(),
{
    if projection.len() == 0 {
        Exactness::Exact
    } else {
        let before = exactness_of(projection.drop_last());
        match projection.last() {
            ProjElem::Field(_) | ProjElem::Deref | ProjElem::Index(_) => before,
            ProjElem::Downcast => Exactness::VariantPayload,
            ProjElem::ConstantIndex | ProjElem::Subslice => if before == Exactness::Exact {
                before
            } else {
                blurred(before)
            },
            ProjElem::Opaque => blurred(before),
        }
    }
}

/// The field path a projection spells while it is exact: field numbers, and
/// one wildcard component per index or slice. A deref adds nothing.
pub open spec fn path_of(projection: Seq<ProjElem>) -> Seq<u32>
    decreases projection.len(),
{
    if projection.len() == 0 {
        Seq::empty()
    } else {
        let before = path_of(projection.drop_last());
        if exactness_of(projection.drop_last()) != Exactness::Exact {
            before
        } else {
            match projection.last() {
                ProjElem::Field(f) => before.push(f),
                ProjElem::Index(_) | ProjElem::ConstantIndex | ProjElem::Subslice => before.push(
                    ANY_ELEM,
                ),
                _ => before,
            }
        }
    }
}

/// The locals a projection indexes by, in order.
pub open spec fn index_locals_of(projection: Seq<ProjElem>) -> Seq<usize>
    decreases projection.len(),
{
    if projection.len() == 0 {
        Seq::empty()
    } else {
        let before = index_locals_of(projection.drop_last());
        match projection.last() {
            ProjElem::Index(v) => before.push(v),
            _ => before,
        }
    }
}

/// The atom a place is.
pub open spec fn atom_of(place: Place) -> AtomView {
    (place.local, path_of(place.projection@))
}

/// A place as an atom.
pub fn place_info(place: &Place) -> (r: PlaceInfo)
    ensures
        r.atom@ == atom_of(*place),
        r.exactness == exactness_of(place.projection@),
        r.index_locals@ == index_locals_of(place.projection@),
{
    let mut path: Vec<u32> = Vec::new();
    let mut exactness = Exactness::Exact;
    let mut index_locals: Vec<usize> = Vec::new();
    let mut i: usize = 0;
    while i < place.projection.len()
        invariant
            i <= place.projection.len(),
            path@ == path_of(place.projection@.take(i as int)),
            exactness == exactness_of(place.projection@.take(i as int)),
            index_locals@ == index_locals_of(place.projection@.take(i as int)),
        decreases place.projection.len() - i,
    {
        proof {
            let now = place.projection@.take(i + 1);
            assert(now.drop_last() == place.projection@.take(i as int));
            assert(now.last() == place.projection@[i as int]);
        }
        match place.projection[i] {
            ProjElem::Field(f) => {
                if exactness == Exactness::Exact {
                    path.push(f);
                }
            },
            ProjElem::Deref => {},
            ProjElem::Downcast => {
                exactness = Exactness::VariantPayload;
            },
            ProjElem::Index(v) => {
                index_locals.push(v);
                if exactness == Exactness::Exact {
                    path.push(ANY_ELEM);
                }
            },
            ProjElem::ConstantIndex | ProjElem::Subslice => {
                if exactness == Exactness::Exact {
                    path.push(ANY_ELEM);
                } else {
                    exactness = exactness.blur();
                }
            },
            ProjElem::Opaque => {
                exactness = exactness.blur();
            },
        }
        i = i + 1;
    }
    assert(place.projection@.take(i as int) == place.projection@);
    PlaceInfo { atom: Atom { local: place.local, path }, exactness, index_locals }
}

/// The place an operand reads, if it reads one.
pub open spec fn place_of_operand(op: Operand) -> Option<Place> {
    match op {
        Operand::Copy(p) => Some(p),
        Operand::Move(p) => Some(p),
        Operand::Constant => None,
        Operand::RuntimeChecks => None,
    }
}

/// The place an operand reads, if it reads one.
pub fn operand_place(op: &Operand) -> (r: Option<&Place>)
    ensures
        r is Some == place_of_operand(*op) is Some,
        r matches Some(p) ==> place_of_operand(*op) == Some(*p),
{
    match op {
        Operand::Copy(p) => Some(p),
        Operand::Move(p) => Some(p),
        Operand::Constant => None,
        Operand::RuntimeChecks => None,
    }
}

/// A projection of fields and derefs only is exact and spells its fields in
/// order.
pub proof fn lemma_field_projection_exact(projection: Seq<ProjElem>)
    requires
        forall|i: int|
            0 <= i < projection.len() ==> (#[trigger] projection[i] is Field
                || projection[i] is Deref),
    ensures
        exactness_of(projection) == Exactness::Exact,
        index_locals_of(projection) == Seq::<usize>::empty(),
    decreases projection.len(),
{
    if projection.len() > 0 {
        assert forall|i: int| 0 <= i < projection.drop_last().len() implies (
        #[trigger] projection.drop_last()[i] is Field || projection.drop_last()[i] is Deref) by {
            assert(projection.drop_last()[i] == projection[i]);
        }
        lemma_field_projection_exact(projection.drop_last());
    }
}

/// No projection after a downcast makes the atom anything but a payload.
pub proof fn lemma_downcast_absorbs(projection: Seq<ProjElem>, more: Seq<ProjElem>)
    requires
        exactness_of(projection) == Exactness::VariantPayload,
    ensures
        exactness_of(projection + more) == Exactness::VariantPayload,
        path_of(projection + more) == path_of(projection),
    decreases more.len(),
{
    if more.len() == 0 {
        assert(projection + more == projection);
    } else {
        lemma_downcast_absorbs(projection, more.drop_last());
        assert((projection + more).drop_last() == projection + more.drop_last());
    }
}

/// A field extends the path, a deref does not, an element of any index is any
/// element, and an index names the local it is taken from.
pub proof fn lemma_projections_extend_the_path(projection: Seq<ProjElem>, f: u32, i: usize)
    requires
        exactness_of(projection) == Exactness::Exact,
    ensures
        path_of(projection.push(ProjElem::Field(f))) == path_of(projection).push(f),
        exactness_of(projection.push(ProjElem::Field(f))) == Exactness::Exact,
        path_of(projection.push(ProjElem::Deref)) == path_of(projection),
        exactness_of(projection.push(ProjElem::Deref)) == Exactness::Exact,
        path_of(projection.push(ProjElem::Index(i))) == path_of(projection).push(ANY_ELEM),
        exactness_of(projection.push(ProjElem::Index(i))) == Exactness::Exact,
        index_locals_of(projection.push(ProjElem::Index(i))) == index_locals_of(projection).push(i),
        index_locals_of(projection.push(ProjElem::Field(f))) == index_locals_of(projection),
        path_of(projection.push(ProjElem::ConstantIndex)) == path_of(projection).push(ANY_ELEM),
        path_of(projection.push(ProjElem::Subslice)) == path_of(projection).push(ANY_ELEM),
        exactness_of(projection.push(ProjElem::ConstantIndex)) == Exactness::Exact,
        exactness_of(projection.push(ProjElem::Subslice)) == Exactness::Exact,
{
    assert(projection.push(ProjElem::Field(f)).drop_last() =~= projection);
    assert(projection.push(ProjElem::Deref).drop_last() =~= projection);
    assert(projection.push(ProjElem::Index(i)).drop_last() =~= projection);
    assert(projection.push(ProjElem::ConstantIndex).drop_last() =~= projection);
    assert(projection.push(ProjElem::Subslice).drop_last() =~= projection);
}

/// A downcast reads the payload of a variant, and what is not modelled is
/// inexact; behind either the path goes no further, and neither becomes exact
/// again.
pub proof fn lemma_exactness_is_lost_for_good(projection: Seq<ProjElem>, p: ProjElem)
    ensures
        exactness_of(projection.push(ProjElem::Downcast)) == Exactness::VariantPayload,
        exactness_of(projection) == Exactness::Exact ==> exactness_of(
            projection.push(ProjElem::Opaque),
        ) == Exactness::Inexact && path_of(projection.push(ProjElem::Opaque)) == path_of(projection)
            && path_of(projection.push(ProjElem::Downcast)) == path_of(projection),
        exactness_of(projection) != Exactness::Exact ==> exactness_of(projection.push(p))
            != Exactness::Exact && path_of(projection.push(p)) == path_of(projection),
        exactness_of(projection) == Exactness::VariantPayload ==> exactness_of(projection.push(p))
            == Exactness::VariantPayload,
{
    assert(projection.push(ProjElem::Downcast).drop_last() =~= projection);
    assert(projection.push(ProjElem::Opaque).drop_last() =~= projection);
    assert(projection.push(p).drop_last() =~= projection);
}

/// Two places overlap where one holds the other; parts of different locals, or
/// different fields of one value, do not.
pub proof fn lemma_overlap_is_containment(l: usize, m: usize, path: Seq<u32>, f: u32, g: u32)
    ensures
        atoms_overlap((l, path), (l, path.push(f))),
        atoms_overlap((l, path.push(f)), (l, path)),
        f != g ==> !atoms_overlap((l, path.push(f)), (l, path.push(g))),
        l != m ==> !atoms_overlap((l, path), (m, path)),
        atom_inspects((l, path.push(f)), (l, path)),
        atom_inspects((l, path), (l, path)),
        !atom_inspects((l, path), (l, path.push(f))),
        l != m ==> !atom_inspects((m, path), (l, path)),
{
    let a = path.push(f);
    let b = path.push(g);
    let n = path.len() as int;
    if f != g && paths_agree(a, b) {
        assert(a[n] == b[n]);
    }
    assert(path.is_prefix_of(a));
    assert(!a.is_prefix_of(path));
}

/// A copy or a move reads its place; a constant reads none.
pub proof fn lemma_operands_read_their_place(p: Place)
    ensures
        place_of_operand(Operand::Copy(p)) == Some(p),
        place_of_operand(Operand::Move(p)) == Some(p),
        place_of_operand(Operand::Constant) is None,
{
}

/// Paths are kept whole up to six steps, and cut there.
pub proof fn lemma_paths_are_kept_to_six_steps(path: Seq<u32>, tail: Seq<u32>)
    ensures
        path.len() + tail.len() <= 6 ==> extended_path(path, tail) == path + tail,
        path.len() <= 6 < path.len() + tail.len() ==> extended_path(path, tail).len() == 6,
        extended_path(path, Seq::empty()) == path,
        extended_path(path, tail).is_prefix_of(path + tail),
{
    let room: int = if path.len() < MAX_PATH {
        MAX_PATH - path.len()
    } else {
        0
    };
    let n: int = if tail.len() < room {
        tail.len() as int
    } else {
        room
    };
    if path.len() + tail.len() <= 6 {
        assert(tail.take(n) =~= tail);
    }
    assert(Seq::<u32>::empty().take(0) =~= Seq::empty());
    assert(extended_path(path, Seq::empty()) =~= path);
    let e = extended_path(path, tail);
    assert(e =~= (path + tail).subrange(0, e.len() as int));
}

} // verus!

//! Roles and their per-block occupancy records. A role is either exclusive
//! (one employee per block, the slot holds an employee id or 0 for none) or
//! shared (a list of distinct employee ids per block).

use vstd::prelude::*;

verus! {

/// The default display color given to a newly created role.
pub const DEFAULT_COLOR: &'static str = "#AAC406";

/// A snapshot of a role's occupancy, in the shape of its variant.
#[derive(Clone, PartialEq, Debug)]
pub enum RoleAssigned {
    SingleAssinged(Vec<usize>),
    MultiAssigned(Vec<Vec<usize>>),
}

/// An exclusive role: each block holds one employee id, or 0 for none.
#[derive(Clone, PartialEq, Debug)]
pub struct SingleRole {
    pub id: usize,
    pub name: String,
    pub sort: usize,
    pub assigned: Vec<usize>,
    pub color: String,
    pub empty: bool,
}

/// A shared role: each block holds a list of distinct employee ids.
#[derive(Clone, PartialEq, Debug)]
pub struct MultiRole {
    pub id: usize,
    pub name: String,
    pub sort: usize,
    pub assigned: Vec<Vec<usize>>,
    pub color: String,
    pub empty: bool,
}

/// A role of either variant.
#[derive(Clone, PartialEq, Debug)]
pub enum Role {
    SingleRole(SingleRole),
    MultiRole(MultiRole),
}

/// The position of the first occurrence of `v` in `s`, if any.
pub open spec fn find_index(s: Seq<usize>, v: usize) -> Option<int>
    decreases s.len(),
{
    if s.len() == 0 {
        None
    } else if s[0] == v {
        Some(0)
    } else {
        match find_index(s.drop_first(), v) {
            None => None,
            Some(i) => Some(i + 1),
        }
    }
}

/// `find_index` returns a position of `v` before which `v` does not occur,
/// and returns `None` exactly when `v` does not occur.
pub proof fn lemma_find_index(s: Seq<usize>, v: usize)
    ensures
        match find_index(s, v) {
            None => forall|j: int| 0 <= j < s.len() ==> s[j] != v,
            Some(i) => 0 <= i < s.len() && s[i] == v && forall|j: int| 0 <= j < i ==> s[j] != v,
        },
    decreases s.len(),
{
    if s.len() > 0 && s[0] != v {
        lemma_find_index(s.drop_first(), v);
        assert forall|j: int| 1 <= j < s.len() implies s.drop_first()[j - 1] == s[j] by {}
    }
}

/// The occupancy of a shared role as a sequence of sequences.
pub open spec fn multi_view(v: Vec<Vec<usize>>) -> Seq<Seq<usize>> {
    Seq::new(v@.len(), |i: int| v@[i]@)
}

/// `s` with every occurrence of `v` removed, order otherwise kept.
pub open spec fn without(s: Seq<usize>, v: usize) -> Seq<usize>
    decreases s.len(),
{
    if s.len() == 0 {
        s
    } else if s.last() == v {
        without(s.drop_last(), v)
    } else {
        without(s.drop_last(), v).push(s.last())
    }
}

/// `without` removes exactly the occurrences of `v`.
pub proof fn lemma_without(s: Seq<usize>, v: usize)
    ensures
        !without(s, v).contains(v),
        forall|x: usize| s.contains(x) && x != v ==> without(s, v).contains(x),
        forall|x: usize| #[trigger] without(s, v).contains(x) ==> s.contains(x),
    decreases s.len(),
{
    if s.len() > 0 {
        lemma_without(s.drop_last(), v);
        let w = without(s, v);
        let wd = without(s.drop_last(), v);
        if s.last() != v && w.contains(v) {
            let i = choose|i: int| 0 <= i < w.len() && w[i] == v;
            assert(i < wd.len() ==> wd[i] == v && wd.contains(v));
        }
        assert forall|x: usize| s.contains(x) && x != v implies w.contains(x) by {
            let i = choose|i: int| 0 <= i < s.len() && s[i] == x;
            if i < s.len() - 1 {
                assert(s.drop_last()[i] == x);
                assert(s.drop_last().contains(x));
                let j = choose|j: int| 0 <= j < wd.len() && wd[j] == x;
                assert(w[j] == x);
            } else {
                assert(s.last() == x);
                assert(w.last() == x);
            }
        }
        assert forall|x: usize| #[trigger] w.contains(x) implies s.contains(x) by {
            let i = choose|i: int| 0 <= i < w.len() && w[i] == x;
            if i < wd.len() {
                assert(wd[i] == x && wd.contains(x));
                let j = choose|j: int| 0 <= j < s.drop_last().len() && s.drop_last()[j] == x;
                assert(s[j] == x);
            } else {
                assert(x == s.last());
                assert(s[s.len() - 1] == x);
            }
        }
    }
}

/// One step of exclusive assignment: writes `emp` at slot `i`, recording the
/// previous occupant if the slot was taken.
pub open spec fn single_add_fold(
    occ: Seq<usize>,
    disp: Seq<(usize, usize)>,
    emp: usize,
    idx: Seq<usize>,
) -> (Seq<usize>, Seq<(usize, usize)>)
    decreases idx.len(),
{
    if idx.len() == 0 {
        (occ, disp)
    } else {
        let i = idx[0];
        let disp2 = if occ[i as int] > 0 {
            disp.push((occ[i as int], i))
        } else {
            disp
        };
        single_add_fold(occ.update(i as int, emp), disp2, emp, idx.drop_first())
    }
}

/// Shared assignment: inserts `emp` into each in-range slot that does not
/// already hold it; out-of-range indexes are ignored.
pub open spec fn multi_add_fold(occ: Seq<Seq<usize>>, emp: usize, idx: Seq<usize>) -> Seq<
    Seq<usize>,
>
    decreases idx.len(),
{
    if idx.len() == 0 {
        occ
    } else {
        let i = idx[0];
        let occ2 = if i < occ.len() && !occ[i as int].contains(emp) {
            occ.update(i as int, occ[i as int].push(emp))
        } else {
            occ
        };
        multi_add_fold(occ2, emp, idx.drop_first())
    }
}

/// Exclusive release: clears each listed slot, whoever holds it.
pub open spec fn single_remove_fold(occ: Seq<usize>, idx: Seq<usize>) -> Seq<usize>
    decreases idx.len(),
{
    if idx.len() == 0 {
        occ
    } else {
        single_remove_fold(occ.update(idx[0] as int, 0), idx.drop_first())
    }
}

/// Shared release: removes the first occurrence of `emp` from each in-range
/// listed slot; out-of-range indexes are ignored.
pub open spec fn multi_remove_fold(occ: Seq<Seq<usize>>, emp: usize, idx: Seq<usize>) -> Seq<
    Seq<usize>,
>
    decreases idx.len(),
{
    if idx.len() == 0 {
        occ
    } else {
        let i = idx[0];
        let occ2 = if i < occ.len() {
            match find_index(occ[i as int], emp) {
                Some(j) => occ.update(i as int, occ[i as int].remove(j)),
                None => occ,
            }
        } else {
            occ
        };
        multi_remove_fold(occ2, emp, idx.drop_first())
    }
}

/// The occupancy of a role, as mathematical sequences.
pub enum OccView {
    /// Exclusive: one employee id per block, 0 for none.
    Single(Seq<usize>),
    /// Shared: the employee ids at each block.
    Multi(Seq<Seq<usize>>),
}

impl OccView {
    /// The number of blocks covered.
    pub open spec fn len(self) -> nat {
        match self {
            OccView::Single(o) => o.len(),
            OccView::Multi(o) => o.len(),
        }
    }

    /// Whether employee `emp` occupies block `i`.
    pub open spec fn occupies(self, i: int, emp: usize) -> bool {
        match self {
            OccView::Single(o) => o[i] == emp,
            OccView::Multi(o) => o[i].contains(emp),
        }
    }

    /// Whether block `i` is free.
    pub open spec fn free(self, i: int) -> bool {
        match self {
            OccView::Single(o) => o[i] == 0,
            OccView::Multi(o) => o[i].len() == 0,
        }
    }
}

/// A role, as mathematical values.
pub struct RoleView {
    pub id: usize,
    pub sort: usize,
    pub name: Seq<char>,
    pub color: Seq<char>,
    pub empty: bool,
    pub occ: OccView,
}

impl View for Role {
    type V = RoleView;

    open spec fn view(&self) -> RoleView {
        match self {
            Role::SingleRole(r) => RoleView {
                id: r.id,
                sort: r.sort,
                name: r.name@,
                color: r.color@,
                empty: r.empty,
                occ: OccView::Single(r.assigned@),
            },
            Role::MultiRole(r) => RoleView {
                id: r.id,
                sort: r.sort,
                name: r.name@,
                color: r.color@,
                empty: r.empty,
                occ: OccView::Multi(multi_view(r.assigned)),
            },
        }
    }
}

impl Role {
    /// The role's id.
    pub open spec fn spec_id(self) -> usize {
        match self {
            Role::SingleRole(r) => r.id,
            Role::MultiRole(r) => r.id,
        }
    }

    /// The role's sort key.
    pub open spec fn spec_sort(self) -> usize {
        match self {
            Role::SingleRole(r) => r.sort,
            Role::MultiRole(r) => r.sort,
        }
    }

    /// The role's name.
    pub open spec fn spec_name(self) -> Seq<char> {
        match self {
            Role::SingleRole(r) => r.name@,
            Role::MultiRole(r) => r.name@,
        }
    }

    /// Whether the role is the shared variant.
    pub open spec fn spec_is_multi(self) -> bool {
        self is MultiRole
    }

    /// The number of blocks in the occupancy record.
    pub open spec fn occ_len(self) -> nat {
        match self {
            Role::SingleRole(r) => r.assigned@.len(),
            Role::MultiRole(r) => r.assigned@.len(),
        }
    }

    /// Whether employee `emp` occupies the role at block `i`.
    pub open spec fn occupies(self, i: int, emp: usize) -> bool {
        match self {
            Role::SingleRole(r) => r.assigned@[i] == emp,
            Role::MultiRole(r) => multi_view(r.assigned)[i].contains(emp),
        }
    }

    /// Identity, name, sort key, color and variant agree between `a` and `b`;
    /// only occupancy and the `empty` flag may differ.
    pub open spec fn same_meta(a: Role, b: Role) -> bool {
        &&& a.spec_id() == b.spec_id()
        &&& a.spec_sort() == b.spec_sort()
        &&& a.spec_name() == b.spec_name()
        &&& a.spec_color() == b.spec_color()
        &&& (a is MultiRole <==> b is MultiRole)
    }

    /// The role's color.
    pub open spec fn spec_color(self) -> Seq<char> {
        match self {
            Role::SingleRole(r) => r.color@,
            Role::MultiRole(r) => r.color@,
        }
    }

    /// The role's id.
    pub fn id(&self) -> (r: usize)
        ensures
            r == self.spec_id(),
    {
        match self {
            Role::SingleRole(r) => r.id,
            Role::MultiRole(r) => r.id,
        }
    }

    /// The role's sort key.
    pub fn sort(&self) -> (r: usize)
        ensures
            r == self.spec_sort(),
    {
        match self {
            Role::SingleRole(r) => r.sort,
            Role::MultiRole(r) => r.sort,
        }
    }

    /// Replaces the role's sort key.
    pub fn sort_set(&mut self, sort: usize)
        ensures
            final(self).spec_sort() == sort,
            Role::same_meta_except_sort(*old(self), *final(self)),
            final(self).occ_len() == old(self).occ_len(),
            *old(self) is SingleRole ==> final(self).single_occ() == old(self).single_occ(),
            *old(self) is MultiRole ==> final(self).multi_occ() == old(self).multi_occ(),
            final(self).spec_is_empty() == old(self).spec_is_empty(),
    {
        match self {
            Role::SingleRole(r) => r.sort = sort,
            Role::MultiRole(r) => r.sort = sort,
        }
    }

    /// Identity, name, color and variant agree; sort, occupancy and the
    /// `empty` flag may differ.
    pub open spec fn same_meta_except_sort(a: Role, b: Role) -> bool {
        &&& a.spec_id() == b.spec_id()
        &&& a.spec_name() == b.spec_name()
        &&& a.spec_color() == b.spec_color()
        &&& (a is MultiRole <==> b is MultiRole)
    }

    /// Whether the role is the shared variant.
    pub fn is_multi(&self) -> (r: bool)
        ensures
            r == self.spec_is_multi(),
    {
        match self {
            Role::SingleRole(_) => false,
            Role::MultiRole(_) => true,
        }
    }

    /// Whether the `empty` flag is still set (no occupancy write has
    /// succeeded since creation); informational only.
    pub open spec fn spec_is_empty(self) -> bool {
        match self {
            Role::SingleRole(r) => r.empty,
            Role::MultiRole(r) => r.empty,
        }
    }

    /// Whether the `empty` flag is still set; informational only.
    pub fn is_empty(&self) -> (r: bool)
        ensures
            r == self.spec_is_empty(),
    {
        match self {
            Role::SingleRole(r) => r.empty,
            Role::MultiRole(r) => r.empty,
        }
    }
}

/// Whether `v` holds `x`.
pub fn contains_usize(v: &Vec<usize>, x: usize) -> (r: bool)
    ensures
        r == v@.contains(x),
{
    let mut k: usize = 0;
    while k < v.len()
        invariant
            k <= v@.len(),
            forall|j: int| 0 <= j < k ==> v@[j] != x,
        decreases v@.len() - k,
    {
        if v[k] == x {
            return true;
        }
        k = k + 1;
    }
    false
}

/// Removes the first occurrence of `x` from `v`, if any.
pub fn remove_first_usize(v: &mut Vec<usize>, x: usize)
    ensures
        final(v)@ == match find_index(old(v)@, x) {
            Some(j) => old(v)@.remove(j),
            None => old(v)@,
        },
{
    proof {
        lemma_find_index(old(v)@, x);
    }
    let mut k: usize = 0;
    while k < v.len()
        invariant
            k <= v@.len(),
            v@ == old(v)@,
            forall|j: int| 0 <= j < k ==> v@[j] != x,
        decreases v@.len() - k,
    {
        if v[k] == x {
            proof {
                lemma_find_index_at(old(v)@, x, k as int);
            }
            v.remove(k);
            return;
        }
        k = k + 1;
    }
}

/// If `v` first occurs in `s` at `i`, `find_index` returns `i`.
pub proof fn lemma_find_index_at(s: Seq<usize>, v: usize, i: int)
    requires
        0 <= i < s.len(),
        s[i] == v,
        forall|j: int| 0 <= j < i ==> s[j] != v,
    ensures
        find_index(s, v) == Some(i),
    decreases s.len(),
{
    if i > 0 {
        assert forall|j: int| 0 <= j < i - 1 implies s.drop_first()[j] != v by {
            assert(s.drop_first()[j] == s[j + 1]);
        }
        assert(s.drop_first()[i - 1] == s[i]);
        lemma_find_index_at(s.drop_first(), v, i - 1);
    }
}

impl SingleRole {
    /// Creates an exclusive role with `blocks` free slots, the default
    /// color, and a sort key equal to its id.
    pub fn new(id: usize, name: String, blocks: usize) -> (r: SingleRole)
        ensures
            r.id == id,
            r.name@ == name@,
            r.sort == id,
            r.assigned@ == Seq::new(blocks as nat, |i: int| 0usize),
            r.color@ == DEFAULT_COLOR@,
            r.empty,
    {
        let mut assigned: Vec<usize> = Vec::new();
        let mut k: usize = 0;
        while k < blocks
            invariant
                k <= blocks,
                assigned@ =~= Seq::new(k as nat, |i: int| 0usize),
            decreases blocks - k,
        {
            assigned.push(0);
            proof {
                assert(assigned@ =~= Seq::new((k + 1) as nat, |i: int| 0usize));
            }
            k = k + 1;
        }
        SingleRole { id, name, sort: id, assigned, color: DEFAULT_COLOR.to_owned(), empty: true }
    }

    /// Creates an exclusive role with a zero-length occupancy, to be grown by
    /// the next grid reset.
    pub fn new_blank(id: usize, name: String, color: String) -> (r: SingleRole)
        ensures
            r.id == id,
            r.name@ == name@,
            r.sort == id,
            r.assigned@ == Seq::<usize>::empty(),
            r.color@ == color@,
            r.empty,
    {
        SingleRole { id, name, sort: id, assigned: Vec::new(), color, empty: true }
    }

    /// Writes `emp` into each listed slot, returning the occupants that were
    /// displaced, in order.
    pub fn add_block_single(&mut self, emp: usize, indexes: &Vec<usize>) -> (displaced: Vec<
        (usize, usize),
    >)
        requires
            forall|k: int|
                0 <= k < indexes@.len() ==> (#[trigger] indexes@[k]) < old(self).assigned@.len(),
        ensures
            (final(self).assigned@, displaced@) == single_add_fold(
                old(self).assigned@,
                Seq::<(usize, usize)>::empty(),
                emp,
                indexes@,
            ),
            final(self).id == old(self).id,
            final(self).name == old(self).name,
            final(self).sort == old(self).sort,
            final(self).color == old(self).color,
            !final(self).empty,
    {
        let mut displaced: Vec<(usize, usize)> = Vec::new();
        let ghost occ0 = self.assigned@;
        proof {
            assert(indexes@.skip(0) =~= indexes@);
        }
        let mut k: usize = 0;
        while k < indexes.len()
            invariant
                k <= indexes@.len(),
                forall|j: int|
                    0 <= j < indexes@.len() ==> (#[trigger] indexes@[j]) < self.assigned@.len(),
                self.assigned@.len() == occ0.len(),
                single_add_fold(occ0, Seq::<(usize, usize)>::empty(), emp, indexes@)
                    == single_add_fold(self.assigned@, displaced@, emp, indexes@.skip(k as int)),
                self.id == old(self).id,
                self.name == old(self).name,
                self.sort == old(self).sort,
                self.color == old(self).color,
                self.empty == old(self).empty,
            decreases indexes@.len() - k,
        {
            let ghost pre_occ = self.assigned@;
            let ghost pre_disp = displaced@;
            let i = indexes[k];
            if self.assigned[i] > 0 {
                displaced.push((self.assigned[i], i));
            }
            self.assigned[i] = emp;
            proof {
                assert(indexes@.skip(k as int)[0] == indexes@[k as int]);
                assert(indexes@.skip(k as int).drop_first() =~= indexes@.skip(k as int + 1));
                assert(single_add_fold(pre_occ, pre_disp, emp, indexes@.skip(k as int))
                    == single_add_fold(self.assigned@, displaced@, emp, indexes@.skip(k as int + 1)));
            }
            k = k + 1;
        }
        proof {
            assert(indexes@.skip(indexes@.len() as int) =~= Seq::<usize>::empty());
        }
        self.empty = false;
        displaced
    }

    /// Clears each listed slot.
    pub fn remove_block_single(&mut self, indexes: &Vec<usize>)
        requires
            forall|k: int|
                0 <= k < indexes@.len() ==> (#[trigger] indexes@[k]) < old(self).assigned@.len(),
        ensures
            final(self).assigned@ == single_remove_fold(old(self).assigned@, indexes@),
            final(self).id == old(self).id,
            final(self).name == old(self).name,
            final(self).sort == old(self).sort,
            final(self).color == old(self).color,
            final(self).empty == old(self).empty,
    {
        let ghost occ0 = self.assigned@;
        proof {
            assert(indexes@.skip(0) =~= indexes@);
        }
        let mut k: usize = 0;
        while k < indexes.len()
            invariant
                k <= indexes@.len(),
                forall|j: int|
                    0 <= j < indexes@.len() ==> (#[trigger] indexes@[j]) < self.assigned@.len(),
                self.assigned@.len() == occ0.len(),
                single_remove_fold(occ0, indexes@) == single_remove_fold(
                    self.assigned@,
                    indexes@.skip(k as int),
                ),
                self.id == old(self).id,
                self.name == old(self).name,
                self.sort == old(self).sort,
                self.color == old(self).color,
                self.empty == old(self).empty,
            decreases indexes@.len() - k,
        {
            let ghost pre_occ = self.assigned@;
            let i = indexes[k];
            self.assigned[i] = 0;
            proof {
                assert(indexes@.skip(k as int)[0] == indexes@[k as int]);
                assert(indexes@.skip(k as int).drop_first() =~= indexes@.skip(k as int + 1));
                assert(single_remove_fold(pre_occ, indexes@.skip(k as int)) == single_remove_fold(
                    self.assigned@,
                    indexes@.skip(k as int + 1),
                ));
            }
            k = k + 1;
        }
        proof {
            assert(indexes@.skip(indexes@.len() as int) =~= Seq::<usize>::empty());
        }
    }

    /// Frees every slot the employee occupies.
    pub fn clear_employee_single(&mut self, emp: usize)
        ensures
            final(self).assigned@.len() == old(self).assigned@.len(),
            forall|i: int|
                0 <= i < old(self).assigned@.len() ==> final(self).assigned@[i] == (if old(
                    self,
                ).assigned@[i] == emp {
                    0usize
                } else {
                    old(self).assigned@[i]
                }),
            final(self).id == old(self).id,
            final(self).name == old(self).name,
            final(self).sort == old(self).sort,
            final(self).color == old(self).color,
            final(self).empty == old(self).empty,
    {
        let mut k: usize = 0;
        while k < self.assigned.len()
            invariant
                k <= self.assigned@.len(),
                self.assigned@.len() == old(self).assigned@.len(),
                forall|i: int|
                    0 <= i < k ==> self.assigned@[i] == (if old(self).assigned@[i] == emp {
                        0usize
                    } else {
                        old(self).assigned@[i]
                    }),
                forall|i: int| k <= i < self.assigned@.len() ==> self.assigned@[i] == old(self).assigned@[i],
                self.id == old(self).id,
                self.name == old(self).name,
                self.sort == old(self).sort,
                self.color == old(self).color,
                self.empty == old(self).empty,
            decreases self.assigned@.len() - k,
        {
            if self.assigned[k] == emp {
                self.assigned[k] = 0;
            }
            k = k + 1;
        }
    }
}

impl MultiRole {
    /// Creates a shared role with `blocks` empty slots, the default color,
    /// and a sort key equal to its id.
    pub fn new(id: usize, name: String, blocks: usize) -> (r: MultiRole)
        ensures
            r.id == id,
            r.name@ == name@,
            r.sort == id,
            multi_view(r.assigned) == Seq::new(blocks as nat, |i: int| Seq::<usize>::empty()),
            r.color@ == DEFAULT_COLOR@,
            r.empty,
    {
        let mut assigned: Vec<Vec<usize>> = Vec::new();
        let mut k: usize = 0;
        while k < blocks
            invariant
                k <= blocks,
                assigned@.len() == k,
                forall|i: int| 0 <= i < k ==> (#[trigger] assigned@[i])@.len() == 0,
            decreases blocks - k,
        {
            assigned.push(Vec::new());
            k = k + 1;
        }
        proof {
            assert forall|i: int| 0 <= i < blocks implies multi_view(assigned)[i]
                =~= Seq::<usize>::empty() by {}
            assert(multi_view(assigned) =~= Seq::new(blocks as nat, |i: int| Seq::<usize>::empty()));
        }
        MultiRole { id, name, sort: id, assigned, color: DEFAULT_COLOR.to_owned(), empty: true }
    }

    /// Inserts `emp` into each in-range listed slot that does not already
    /// hold it.
    pub fn add_block_multi(&mut self, emp: usize, indexes: &Vec<usize>)
        ensures
            multi_view(final(self).assigned) == multi_add_fold(
                multi_view(old(self).assigned),
                emp,
                indexes@,
            ),
            final(self).id == old(self).id,
            final(self).name == old(self).name,
            final(self).sort == old(self).sort,
            final(self).color == old(self).color,
            !final(self).empty,
    {
        let ghost occ0 = multi_view(self.assigned);
        proof {
            assert(indexes@.skip(0) =~= indexes@);
        }
        let mut k: usize = 0;
        while k < indexes.len()
            invariant
                k <= indexes@.len(),
                multi_add_fold(occ0, emp, indexes@) == multi_add_fold(
                    multi_view(self.assigned),
                    emp,
                    indexes@.skip(k as int),
                ),
                self.id == old(self).id,
                self.name == old(self).name,
                self.sort == old(self).sort,
                self.color == old(self).color,
                self.empty == old(self).empty,
            decreases indexes@.len() - k,
        {
            let ghost pre = multi_view(self.assigned);
            let i = indexes[k];
            if i < self.assigned.len() {
                if !contains_usize(&self.assigned[i], emp) {
                    self.assigned[i].push(emp);
                    proof {
                        assert(multi_view(self.assigned) =~= pre.update(
                            i as int,
                            pre[i as int].push(emp),
                        ));
                    }
                }
            }
            proof {
                assert(indexes@.skip(k as int)[0] == indexes@[k as int]);
                assert(indexes@.skip(k as int).drop_first() =~= indexes@.skip(k as int + 1));
                assert(multi_add_fold(pre, emp, indexes@.skip(k as int)) == multi_add_fold(
                    multi_view(self.assigned),
                    emp,
                    indexes@.skip(k as int + 1),
                ));
            }
            k = k + 1;
        }
        proof {
            assert(indexes@.skip(indexes@.len() as int) =~= Seq::<usize>::empty());
        }
        self.empty = false;
    }

    /// Removes the first occurrence of `emp` from each in-range listed slot.
    pub fn remove_block_multi(&mut self, emp: usize, indexes: &Vec<usize>)
        ensures
            multi_view(final(self).assigned) == multi_remove_fold(
                multi_view(old(self).assigned),
                emp,
                indexes@,
            ),
            final(self).id == old(self).id,
            final(self).name == old(self).name,
            final(self).sort == old(self).sort,
            final(self).color == old(self).color,
            final(self).empty == old(self).empty,
    {
        let ghost occ0 = multi_view(self.assigned);
        proof {
            assert(indexes@.skip(0) =~= indexes@);
        }
        let mut k: usize = 0;
        while k < indexes.len()
            invariant
                k <= indexes@.len(),
                multi_remove_fold(occ0, emp, indexes@) == multi_remove_fold(
                    multi_view(self.assigned),
                    emp,
                    indexes@.skip(k as int),
                ),
                self.id == old(self).id,
                self.name == old(self).name,
                self.sort == old(self).sort,
                self.color == old(self).color,
                self.empty == old(self).empty,
            decreases indexes@.len() - k,
        {
            let ghost pre = multi_view(self.assigned);
            let i = indexes[k];
            if i < self.assigned.len() {
                remove_first_usize(&mut self.assigned[i], emp);
                proof {
                    match find_index(pre[i as int], emp) {
                        Some(j) => {
                            assert(multi_view(self.assigned) =~= pre.update(
                                i as int,
                                pre[i as int].remove(j),
                            ));
                        },
                        None => {
                            assert(multi_view(self.assigned) =~= pre);
                        },
                    }
                }
            }
            proof {
                assert(indexes@.skip(k as int)[0] == indexes@[k as int]);
                assert(indexes@.skip(k as int).drop_first() =~= indexes@.skip(k as int + 1));
                assert(multi_remove_fold(pre, emp, indexes@.skip(k as int)) == multi_remove_fold(
                    multi_view(self.assigned),
                    emp,
                    indexes@.skip(k as int + 1),
                ));
            }
            k = k + 1;
        }
        proof {
            assert(indexes@.skip(indexes@.len() as int) =~= Seq::<usize>::empty());
        }
    }

    /// Removes every occurrence of `emp` from every slot.
    pub fn clear_employee_multi(&mut self, emp: usize)
        ensures
            multi_view(final(self).assigned).len() == multi_view(old(self).assigned).len(),
            forall|i: int|
                0 <= i < multi_view(old(self).assigned).len() ==> multi_view(
                    final(self).assigned,
                )[i] == without(multi_view(old(self).assigned)[i], emp),
            final(self).id == old(self).id,
            final(self).name == old(self).name,
            final(self).sort == old(self).sort,
            final(self).color == old(self).color,
            final(self).empty == old(self).empty,
    {
        let mut k: usize = 0;
        while k < self.assigned.len()
            invariant
                k <= self.assigned@.len(),
                self.assigned@.len() == old(self).assigned@.len(),
                forall|i: int|
                    0 <= i < k ==> multi_view(self.assigned)[i] == without(
                        multi_view(old(self).assigned)[i],
                        emp,
                    ),
                forall|i: int|
                    k <= i < self.assigned@.len() ==> multi_view(self.assigned)[i] == multi_view(
                        old(self).assigned,
                    )[i],
                self.id == old(self).id,
                self.name == old(self).name,
                self.sort == old(self).sort,
                self.color == old(self).color,
                self.empty == old(self).empty,
            decreases self.assigned@.len() - k,
        {
            let ghost pre = multi_view(self.assigned);
            let filtered = filter_out_usize(&self.assigned[k], emp);
            self.assigned[k] = filtered;
            proof {
                assert(forall|i: int|
                    0 <= i < self.assigned@.len() && i != k ==> multi_view(self.assigned)[i]
                        == pre[i]);
                assert(pre[k as int] == multi_view(old(self).assigned)[k as int]);
                assert(multi_view(self.assigned)[k as int] == without(
                    multi_view(old(self).assigned)[k as int],
                    emp,
                ));
                assert forall|i: int| 0 <= i < k + 1 implies multi_view(self.assigned)[i]
                    == without(multi_view(old(self).assigned)[i], emp) by {
                    if i < k {
                        assert(multi_view(self.assigned)[i] == pre[i]);
                    }
                }
            }
            k = k + 1;
        }
    }
}

/// A copy of `v` with every occurrence of `x` removed, order kept.
pub fn filter_out_usize(v: &Vec<usize>, x: usize) -> (r: Vec<usize>)
    ensures
        r@ == without(v@, x),
{
    let mut r: Vec<usize> = Vec::new();
    let mut k: usize = 0;
    proof {
        assert(r@ == without(v@.take(0), x));
    }
    while k < v.len()
        invariant
            k <= v@.len(),
            r@ == without(v@.take(k as int), x),
        decreases v@.len() - k,
    {
        let ghost prefix = v@.take(k as int);
        proof {
            assert(v@.take(k as int + 1).drop_last() =~= prefix);
            assert(v@.take(k as int + 1).last() == v@[k as int]);
            assert(without(v@.take(k as int + 1), x) == if v@[k as int] != x {
                without(prefix, x).push(v@[k as int])
            } else {
                without(prefix, x)
            });
        }
        if v[k] != x {
            r.push(v[k]);
        }
        k = k + 1;
    }
    proof {
        assert(v@.take(v@.len() as int) =~= v@);
    }
    r
}


/// The folded exclusive occupancy has the same length as the input when
/// every index is in range.
pub proof fn lemma_single_add_fold_len(
    occ: Seq<usize>,
    disp: Seq<(usize, usize)>,
    emp: usize,
    idx: Seq<usize>,
)
    requires
        forall|k: int| 0 <= k < idx.len() ==> (#[trigger] idx[k]) < occ.len(),
    ensures
        single_add_fold(occ, disp, emp, idx).0.len() == occ.len(),
    decreases idx.len(),
{
    if idx.len() > 0 {
        let occ2 = occ.update(idx[0] as int, emp);
        assert forall|k: int| 0 <= k < idx.drop_first().len() implies (#[trigger] idx.drop_first()[k])
            < occ2.len() by {
            assert(idx.drop_first()[k] == idx[k + 1]);
        }
        let disp2 = if occ[idx[0] as int] > 0 {
            disp.push((occ[idx[0] as int], idx[0]))
        } else {
            disp
        };
        lemma_single_add_fold_len(occ2, disp2, emp, idx.drop_first());
    }
}

/// The folded shared occupancy has the same length as the input.
pub proof fn lemma_multi_add_fold_len(occ: Seq<Seq<usize>>, emp: usize, idx: Seq<usize>)
    ensures
        multi_add_fold(occ, emp, idx).len() == occ.len(),
    decreases idx.len(),
{
    if idx.len() > 0 {
        let i = idx[0];
        let occ2 = if i < occ.len() && !occ[i as int].contains(emp) {
            occ.update(i as int, occ[i as int].push(emp))
        } else {
            occ
        };
        lemma_multi_add_fold_len(occ2, emp, idx.drop_first());
    }
}

/// Clearing exclusive slots keeps the occupancy length when every index is
/// in range.
pub proof fn lemma_single_remove_fold_len(occ: Seq<usize>, idx: Seq<usize>)
    requires
        forall|k: int| 0 <= k < idx.len() ==> (#[trigger] idx[k]) < occ.len(),
    ensures
        single_remove_fold(occ, idx).len() == occ.len(),
    decreases idx.len(),
{
    if idx.len() > 0 {
        let occ2 = occ.update(idx[0] as int, 0usize);
        assert forall|k: int| 0 <= k < idx.drop_first().len() implies (#[trigger] idx.drop_first()[k])
            < occ2.len() by {
            assert(idx.drop_first()[k] == idx[k + 1]);
        }
        lemma_single_remove_fold_len(occ2, idx.drop_first());
    }
}

/// Releasing shared slots keeps the occupancy length.
pub proof fn lemma_multi_remove_fold_len(occ: Seq<Seq<usize>>, emp: usize, idx: Seq<usize>)
    ensures
        multi_remove_fold(occ, emp, idx).len() == occ.len(),
    decreases idx.len(),
{
    if idx.len() > 0 {
        let i = idx[0];
        let occ2 = if i < occ.len() {
            match find_index(occ[i as int], emp) {
                Some(j) => occ.update(i as int, occ[i as int].remove(j)),
                None => occ,
            }
        } else {
            occ
        };
        lemma_multi_remove_fold_len(occ2, emp, idx.drop_first());
    }
}

/// A copy of `v` with the same contents.
pub fn copy_usize_vec(v: &Vec<usize>) -> (r: Vec<usize>)
    ensures
        r@ == v@,
{
    let mut r: Vec<usize> = Vec::new();
    let mut k: usize = 0;
    while k < v.len()
        invariant
            k <= v@.len(),
            r@ =~= v@.take(k as int),
        decreases v@.len() - k,
    {
        r.push(v[k]);
        proof {
            assert(r@ =~= v@.take(k as int + 1));
        }
        k = k + 1;
    }
    proof {
        assert(v@.take(v@.len() as int) =~= v@);
    }
    r
}

/// A copy of `v` with the same contents, block by block.
pub fn copy_multi_vec(v: &Vec<Vec<usize>>) -> (r: Vec<Vec<usize>>)
    ensures
        multi_view(r) == multi_view(*v),
{
    let mut r: Vec<Vec<usize>> = Vec::new();
    let mut k: usize = 0;
    while k < v.len()
        invariant
            k <= v@.len(),
            r@.len() == k,
            forall|i: int| 0 <= i < k ==> multi_view(r)[i] == multi_view(*v)[i],
        decreases v@.len() - k,
    {
        let inner = copy_usize_vec(&v[k]);
        r.push(inner);
        k = k + 1;
    }
    proof {
        assert(multi_view(r) =~= multi_view(*v));
    }
    r
}

impl Role {
    /// The occupancy of an exclusive role.
    pub open spec fn single_occ(self) -> Seq<usize> {
        match self {
            Role::SingleRole(r) => r.assigned@,
            Role::MultiRole(_) => arbitrary(),
        }
    }

    /// The occupancy of a shared role.
    pub open spec fn multi_occ(self) -> Seq<Seq<usize>> {
        match self {
            Role::MultiRole(r) => multi_view(r.assigned),
            Role::SingleRole(_) => arbitrary(),
        }
    }

    /// Writes the employee id into the occupancy at the given indexes.
    /// Exclusive variant: overwrites each slot and returns each previous
    /// occupant as a `(displaced employee id, block index)` pair. Shared
    /// variant: inserts the id where absent, ignores out-of-range indexes,
    /// and displaces nobody.
    pub fn add_block(&mut self, id: &usize, indexes: Vec<usize>) -> (displaced: Vec<(usize, usize)>)
        requires
            *old(self) is SingleRole ==> forall|k: int|
                0 <= k < indexes@.len() ==> (#[trigger] indexes@[k]) < old(self).occ_len(),
        ensures
            Role::same_meta(*old(self), *final(self)),
            !final(self).spec_is_empty(),
            final(self).occ_len() == old(self).occ_len(),
            *old(self) is SingleRole ==> (final(self).single_occ(), displaced@) == single_add_fold(
                old(self).single_occ(),
                Seq::<(usize, usize)>::empty(),
                *id,
                indexes@,
            ),
            *old(self) is MultiRole ==> final(self).multi_occ() == multi_add_fold(
                old(self).multi_occ(),
                *id,
                indexes@,
            ) && displaced@ == Seq::<(usize, usize)>::empty(),
    {
        match self {
            Role::SingleRole(r) => {
                let d = r.add_block_single(*id, &indexes);
                proof {
                    lemma_single_add_fold_len(
                        old(self).single_occ(),
                        Seq::<(usize, usize)>::empty(),
                        *id,
                        indexes@,
                    );
                }
                d
            },
            Role::MultiRole(r) => {
                r.add_block_multi(*id, &indexes);
                proof {
                    lemma_multi_add_fold_len(old(self).multi_occ(), *id, indexes@);
                }
                Vec::new()
            },
        }
    }

    /// Releases the occupancy at the given indexes. Exclusive variant:
    /// clears each listed slot outright. Shared variant: removes the first
    /// occurrence of the employee from each in-range listed slot.
    pub fn remove_block(&mut self, emp: &usize, indexes: Vec<usize>)
        requires
            *old(self) is SingleRole ==> forall|k: int|
                0 <= k < indexes@.len() ==> (#[trigger] indexes@[k]) < old(self).occ_len(),
        ensures
            Role::same_meta(*old(self), *final(self)),
            final(self).spec_is_empty() == old(self).spec_is_empty(),
            final(self).occ_len() == old(self).occ_len(),
            *old(self) is SingleRole ==> final(self).single_occ() == single_remove_fold(
                old(self).single_occ(),
                indexes@,
            ),
            *old(self) is MultiRole ==> final(self).multi_occ() == multi_remove_fold(
                old(self).multi_occ(),
                *emp,
                indexes@,
            ),
    {
        match self {
            Role::SingleRole(r) => {
                r.remove_block_single(&indexes);
                proof {
                    lemma_single_remove_fold_len(old(self).single_occ(), indexes@);
                }
            },
            Role::MultiRole(r) => {
                r.remove_block_multi(*emp, &indexes);
                proof {
                    lemma_multi_remove_fold_len(old(self).multi_occ(), *emp, indexes@);
                }
            },
        }
    }

    /// Detaches the employee from every block of the occupancy.
    pub fn clear_employee(&mut self, id: &usize)
        ensures
            Role::same_meta(*old(self), *final(self)),
            final(self).spec_is_empty() == old(self).spec_is_empty(),
            final(self).occ_len() == old(self).occ_len(),
            *old(self) is SingleRole ==> forall|i: int|
                0 <= i < old(self).occ_len() ==> final(self).single_occ()[i] == (if old(
                    self,
                ).single_occ()[i] == *id {
                    0usize
                } else {
                    old(self).single_occ()[i]
                }),
            *old(self) is MultiRole ==> forall|i: int|
                0 <= i < old(self).occ_len() ==> final(self).multi_occ()[i] == without(
                    old(self).multi_occ()[i],
                    *id,
                ),
    {
        match self {
            Role::SingleRole(r) => r.clear_employee_single(*id),
            Role::MultiRole(r) => r.clear_employee_multi(*id),
        }
    }

    /// Replaces the occupancy with `blocks` free slots.
    pub fn blank_out(&mut self, blocks: usize)
        ensures
            Role::same_meta(*old(self), *final(self)),
            final(self).spec_is_empty() == old(self).spec_is_empty(),
            final(self).occ_len() == blocks,
            *final(self) is SingleRole ==> final(self).single_occ() == Seq::new(
                blocks as nat,
                |i: int| 0usize,
            ),
            *final(self) is MultiRole ==> final(self).multi_occ() == Seq::new(
                blocks as nat,
                |i: int| Seq::<usize>::empty(),
            ),
    {
        match self {
            Role::SingleRole(r) => {
                let mut assigned: Vec<usize> = Vec::new();
                let mut k: usize = 0;
                while k < blocks
                    invariant
                        k <= blocks,
                        assigned@ =~= Seq::new(k as nat, |i: int| 0usize),
                    decreases blocks - k,
                {
                    assigned.push(0);
                    proof {
                        assert(assigned@ =~= Seq::new((k + 1) as nat, |i: int| 0usize));
                    }
                    k = k + 1;
                }
                r.assigned = assigned;
            },
            Role::MultiRole(r) => {
                let mut assigned: Vec<Vec<usize>> = Vec::new();
                let mut k: usize = 0;
                while k < blocks
                    invariant
                        k <= blocks,
                        assigned@.len() == k,
                        forall|i: int| 0 <= i < k ==> (#[trigger] assigned@[i])@.len() == 0,
                    decreases blocks - k,
                {
                    assigned.push(Vec::new());
                    k = k + 1;
                }
                proof {
                    assert forall|i: int| 0 <= i < blocks implies multi_view(assigned)[i]
                        =~= Seq::<usize>::empty() by {}
                    assert(multi_view(assigned) =~= Seq::new(
                        blocks as nat,
                        |i: int| Seq::<usize>::empty(),
                    ));
                }
                r.assigned = assigned;
            },
        }
    }

    /// A copy of the occupancy, in the shape of the role's variant.
    pub fn assigned(&self) -> (r: RoleAssigned)
        ensures
            *self is SingleRole ==> (r matches RoleAssigned::SingleAssinged(v) && v@
                == self.single_occ()),
            *self is MultiRole ==> (r matches RoleAssigned::MultiAssigned(v) && multi_view(v)
                == self.multi_occ()),
    {
        match self {
            Role::SingleRole(r) => RoleAssigned::SingleAssinged(copy_usize_vec(&r.assigned)),
            Role::MultiRole(r) => RoleAssigned::MultiAssigned(copy_multi_vec(&r.assigned)),
        }
    }

    /// A copy of the role's name.
    pub fn name(&self) -> (r: String)
        ensures
            r@ == self.spec_name(),
    {
        match self {
            Role::SingleRole(r) => r.name.clone(),
            Role::MultiRole(r) => r.name.clone(),
        }
    }

    /// A copy of the role's color.
    pub fn color(&self) -> (r: String)
        ensures
            r@ == self.spec_color(),
    {
        match self {
            Role::SingleRole(r) => r.color.clone(),
            Role::MultiRole(r) => r.color.clone(),
        }
    }

    /// Replaces the role's color.
    pub fn color_set(&mut self, color: String)
        ensures
            final(self).spec_color() == color@,
            final(self).spec_id() == old(self).spec_id(),
            final(self).spec_sort() == old(self).spec_sort(),
            final(self).spec_name() == old(self).spec_name(),
            (*final(self) is MultiRole <==> *old(self) is MultiRole),
            final(self).spec_is_empty() == old(self).spec_is_empty(),
            final(self).occ_len() == old(self).occ_len(),
            *old(self) is SingleRole ==> final(self).single_occ() == old(self).single_occ(),
            *old(self) is MultiRole ==> final(self).multi_occ() == old(self).multi_occ(),
    {
        match self {
            Role::SingleRole(r) => r.color = color,
            Role::MultiRole(r) => r.color = color,
        }
    }
}


/// Identity, name, sort key, color and variant agree between two role
/// views; occupancy and the `empty` flag may differ.
pub open spec fn same_meta_view(a: RoleView, b: RoleView) -> bool {
    &&& a.id == b.id
    &&& a.sort == b.sort
    &&& a.name == b.name
    &&& a.color == b.color
    &&& (a.occ is Multi <==> b.occ is Multi)
}

/// Whether block index `i` occurs in the index list `s`.
pub open spec fn has_idx(s: Seq<usize>, i: int) -> bool {
    exists|p: int| 0 <= p < s.len() && s[p] == i
}

/// What exclusive assignment does, slot by slot: every listed slot ends up
/// holding `emp`, every other slot keeps its occupant, and the recorded
/// displacements extend the accumulator with the original occupants of
/// listed non-free slots.
pub proof fn lemma_single_add_fold_props(
    occ: Seq<usize>,
    disp: Seq<(usize, usize)>,
    emp: usize,
    idx: Seq<usize>,
)
    requires
        idx.no_duplicates(),
        forall|p: int| 0 <= p < idx.len() ==> (#[trigger] idx[p]) < occ.len(),
    ensures
        ({
            let g = single_add_fold(occ, disp, emp, idx);
            &&& g.0.len() == occ.len()
            &&& forall|i: int|
                0 <= i < occ.len() ==> g.0[i] == (if has_idx(idx, i) {
                    emp
                } else {
                    occ[i]
                })
            &&& g.1.len() >= disp.len()
            &&& g.1.len() - disp.len() <= idx.len()
            &&& forall|p: int| 0 <= p < disp.len() ==> g.1[p] == disp[p]
            &&& forall|p: int|
                disp.len() <= p < g.1.len() ==> has_idx(idx, (#[trigger] g.1[p]).1 as int)
                    && g.1[p].1 < occ.len() && occ[g.1[p].1 as int] == g.1[p].0 && g.1[p].0 > 0
            &&& forall|i: int|
                0 <= i < occ.len() && has_idx(idx, i) && occ[i] > 0 ==> exists|p: int|
                    disp.len() <= p < g.1.len() && (#[trigger] g.1[p]) == (occ[i], i as usize)
        }),
    decreases idx.len(),
{
    if idx.len() > 0 {
        let i0 = idx[0];
        let occ2 = occ.update(i0 as int, emp);
        let disp2 = if occ[i0 as int] > 0 {
            disp.push((occ[i0 as int], i0))
        } else {
            disp
        };
        let rest = idx.drop_first();
        assert(rest.no_duplicates());
        assert forall|p: int| 0 <= p < rest.len() implies (#[trigger] rest[p]) < occ2.len() by {
            assert(rest[p] == idx[p + 1]);
        }
        lemma_single_add_fold_props(occ2, disp2, emp, rest);
        let g = single_add_fold(occ, disp, emp, idx);
        assert(g == single_add_fold(occ2, disp2, emp, rest));
        assert forall|p: int| 0 <= p < rest.len() implies rest[p] != i0 by {
            assert(rest[p] == idx[p + 1]);
        }
        assert forall|i: int|
            0 <= i < occ.len() implies g.0[i] == (if has_idx(idx, i) {
            emp
        } else {
            occ[i]
        }) by {
            if has_idx(idx, i) {
                let p = choose|p: int| 0 <= p < idx.len() && idx[p] == i;
                if p == 0 {
                    if has_idx(rest, i) {
                    } else {
                        assert(g.0[i] == occ2[i]);
                    }
                } else {
                    assert(rest[p - 1] == idx[p]);
                    assert(has_idx(rest, i));
                }
            } else {
                assert(!has_idx(rest, i)) by {
                    if has_idx(rest, i) {
                        let p = choose|p: int| 0 <= p < rest.len() && rest[p] == i;
                        assert(idx[p + 1] == rest[p]);
                    }
                }
                assert(i != i0);
            }
        }
        assert forall|p: int|
            disp.len() <= p < g.1.len() implies has_idx(idx, (#[trigger] g.1[p]).1 as int)
                && g.1[p].1 < occ.len() && occ[g.1[p].1 as int] == g.1[p].0 && g.1[p].0 > 0 by {
            if p < disp2.len() {
                assert(g.1[p] == disp2[p]);
                assert(occ[i0 as int] > 0);
                assert(g.1[p] == (occ[i0 as int], i0));
            } else {
                assert(has_idx(rest, g.1[p].1 as int));
                let q = choose|q: int| 0 <= q < rest.len() && rest[q] == g.1[p].1;
                assert(idx[q + 1] == rest[q]);
                assert(rest[q] != i0);
                assert(occ2[g.1[p].1 as int] == occ[g.1[p].1 as int]);
            }
        }
        assert forall|p: int| 0 <= p < disp.len() implies g.1[p] == disp[p] by {
            assert(g.1[p] == disp2[p]);
        }
        assert forall|i: int|
            0 <= i < occ.len() && has_idx(idx, i) && occ[i] > 0 implies exists|p: int|
                disp.len() <= p < g.1.len() && (#[trigger] g.1[p]) == (occ[i], i as usize) by {
            if i == i0 {
                assert(g.1[disp.len() as int] == disp2[disp.len() as int]);
                assert(disp2[disp.len() as int] == (occ[i0 as int], i0));
            } else {
                let q = choose|q: int| 0 <= q < idx.len() && idx[q] == i;
                assert(q != 0);
                assert(rest[q - 1] == idx[q]);
                assert(has_idx(rest, i));
                assert(occ2[i] == occ[i]);
                assert(occ2[i] > 0);
                let p = choose|p: int|
                    disp2.len() <= p < g.1.len() && (#[trigger] g.1[p]) == (occ2[i], i as usize);
                assert(disp.len() <= p);
            }
        }
    }
}

/// What shared assignment does, slot by slot: after the fold a slot holds an
/// id exactly when it held it before or it is a listed in-range slot and the
/// id is the inserted employee; unlisted slots are unchanged.
pub proof fn lemma_multi_add_fold_props(occ: Seq<Seq<usize>>, emp: usize, idx: Seq<usize>)
    ensures
        ({
            let g = multi_add_fold(occ, emp, idx);
            &&& g.len() == occ.len()
            &&& forall|i: int| 0 <= i < occ.len() && !has_idx(idx, i) ==> g[i] == occ[i]
            &&& forall|i: int, x: usize|
                0 <= i < occ.len() ==> ((#[trigger] g[i].contains(x)) <==> (occ[i].contains(x) || (x
                    == emp && has_idx(idx, i))))
        }),
    decreases idx.len(),
{
    if idx.len() > 0 {
        let i0 = idx[0];
        let occ2 = if i0 < occ.len() && !occ[i0 as int].contains(emp) {
            occ.update(i0 as int, occ[i0 as int].push(emp))
        } else {
            occ
        };
        let rest = idx.drop_first();
        lemma_multi_add_fold_props(occ2, emp, rest);
        let g = multi_add_fold(occ, emp, idx);
        assert forall|i: int| 0 <= i < occ.len() && !has_idx(idx, i) implies g[i] == occ[i] by {
            assert(i != i0);
            assert(!has_idx(rest, i)) by {
                if has_idx(rest, i) {
                    let p = choose|p: int| 0 <= p < rest.len() && rest[p] == i;
                    assert(idx[p + 1] == rest[p]);
                }
            }
        }
        assert forall|i: int, x: usize|
            0 <= i < occ.len() implies ((#[trigger] g[i].contains(x)) <==> (occ[i].contains(x) || (x
                == emp && has_idx(idx, i)))) by {
            assert(g[i].contains(x) <==> (occ2[i].contains(x) || (x == emp && has_idx(rest, i))));
            if i == i0 && i0 < occ.len() && !occ[i0 as int].contains(emp) {
                assert(occ2[i] == occ[i].push(emp));
                assert forall|y: usize| occ2[i].contains(y) implies (occ[i].contains(y) || y
                    == emp) by {
                    let q = choose|q: int| 0 <= q < occ2[i].len() && occ2[i][q] == y;
                    if q < occ[i].len() {
                        assert(occ[i][q] == y);
                    }
                }
                assert(occ2[i].contains(emp)) by {
                    assert(occ2[i][occ2[i].len() - 1] == emp);
                }
                assert forall|y: usize| occ[i].contains(y) implies occ2[i].contains(y) by {
                    let q = choose|q: int| 0 <= q < occ[i].len() && occ[i][q] == y;
                    assert(occ2[i][q] == y);
                }
            }
            if has_idx(idx, i) && i != i0 {
                let p = choose|p: int| 0 <= p < idx.len() && idx[p] == i;
                assert(rest[p - 1] == idx[p]);
                assert(has_idx(rest, i));
            }
            if has_idx(rest, i) {
                let p = choose|p: int| 0 <= p < rest.len() && rest[p] == i;
                assert(idx[p + 1] == rest[p]);
                assert(has_idx(idx, i));
            }
            if i0 < occ.len() {
                assert(has_idx(idx, i0 as int)) by {
                    assert(idx[0] == i0);
                }
            }
        }
    }
}

/// Removing one listed element keeps every other value's membership.
pub proof fn lemma_remove_one_membership(s: Seq<usize>, j: int)
    requires
        0 <= j < s.len(),
    ensures
        forall|x: usize|
            x != s[j] ==> ((#[trigger] s.remove(j).contains(x)) <==> s.contains(x)),
        s.remove(j).len() == s.len() - 1,
{
    let t = s.remove(j);
    assert forall|x: usize| x != s[j] implies (t.contains(x) <==> s.contains(x)) by {
        if t.contains(x) {
            let q = choose|q: int| 0 <= q < t.len() && t[q] == x;
            if q < j {
                assert(s[q] == x);
            } else {
                assert(s[q + 1] == x);
            }
        }
        if s.contains(x) {
            let q = choose|q: int| 0 <= q < s.len() && s[q] == x;
            if q < j {
                assert(t[q] == x);
            } else {
                assert(q != j);
                assert(t[q - 1] == x);
            }
        }
    }
}

} // verus!

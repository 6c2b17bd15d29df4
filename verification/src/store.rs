//! The store: three tables, their integrity rules, and the CRUD
//! operations of the repository layer.

use vstd::prelude::*;

use crate::order::{op_sorts_before, ops_sorted, op_sorts_before_exec, str_eq};
use crate::{Category, Operation, Subcategory};

verus! {

broadcast use vstd::seq::group_seq_axioms;

/// The error kinds a repository operation can report. Callers that need
/// a plain text channel flatten them with [`StoreError::message`].
#[derive(Debug, Clone, Copy, PartialEq, Eq, Structural)]
pub enum StoreError {
    /// A category with the requested name already exists.
    DuplicateCategoryName,
    /// The parent category already owns a subcategory with the requested name.
    DuplicateSubcategoryName,
    /// The given category identifier references no existing category.
    UnknownCategory,
    /// The given subcategory identifier references no existing subcategory.
    UnknownSubcategory,
}

impl StoreError {
    /// The human-readable description handed across the outer boundary.
    pub fn message(&self) -> (m: &'static str)
        ensures
            self is DuplicateCategoryName ==> m@ == "a category with this name already exists"@,
            self is DuplicateSubcategoryName ==> m@
                == "this category already has a subcategory with this name"@,
            self is UnknownCategory ==> m@ == "no category has this id"@,
            self is UnknownSubcategory ==> m@ == "no subcategory has this id"@,
    {
        match self {
            StoreError::DuplicateCategoryName => "a category with this name already exists",
            StoreError::DuplicateSubcategoryName => "this category already has a subcategory with this name",
            StoreError::UnknownCategory => "no category has this id",
            StoreError::UnknownSubcategory => "no subcategory has this id",
        }
    }
}

/// No two categories share an identifier.
pub open spec fn cat_ids_distinct(s: Seq<Category>) -> bool {
    forall|i: int, j: int| 0 <= i < j < s.len() ==> s[i].id != s[j].id
}

/// No two categories share a name.
pub open spec fn cat_names_distinct(s: Seq<Category>) -> bool {
    forall|i: int, j: int| 0 <= i < j < s.len() ==> s[i].name@ != s[j].name@
}

/// Some category carries the identifier.
pub open spec fn has_category_with_id(s: Seq<Category>, id: usize) -> bool {
    exists|i: int| 0 <= i < s.len() && s[i].id == id
}

/// Some category carries the name.
pub open spec fn has_category_with_name(s: Seq<Category>, name: Seq<char>) -> bool {
    exists|i: int| 0 <= i < s.len() && s[i].name@ == name
}

/// No two subcategories share an identifier.
pub open spec fn sub_ids_distinct(s: Seq<Subcategory>) -> bool {
    forall|i: int, j: int| 0 <= i < j < s.len() ==> s[i].id != s[j].id
}

/// No two subcategories share both parent category and name.
pub open spec fn sub_pairs_distinct(s: Seq<Subcategory>) -> bool {
    forall|i: int, j: int|
        0 <= i < j < s.len() ==> !(s[i].category_id == s[j].category_id && s[i].name@
            == s[j].name@)
}

/// Some subcategory carries the identifier.
pub open spec fn has_subcategory_with_id(s: Seq<Subcategory>, id: usize) -> bool {
    exists|i: int| 0 <= i < s.len() && s[i].id == id
}

/// Some subcategory under the given category carries the name.
pub open spec fn has_subcategory_with_pair(s: Seq<Subcategory>, cat: usize, name: Seq<char>) -> bool {
    exists|i: int| 0 <= i < s.len() && s[i].category_id == cat && s[i].name@ == name
}

/// Every subcategory references an existing category.
pub open spec fn subs_reference_categories(subs: Seq<Subcategory>, cats: Seq<Category>) -> bool {
    forall|i: int|
        0 <= i < subs.len() ==> has_category_with_id(cats, #[trigger] subs[i].category_id)
}

/// No two operations share an identifier.
pub open spec fn op_ids_distinct(s: Seq<Operation>) -> bool {
    forall|i: int, j: int| 0 <= i < j < s.len() ==> s[i].id != s[j].id
}

/// Every operation references an existing subcategory.
pub open spec fn ops_reference_subcategories(ops: Seq<Operation>, subs: Seq<Subcategory>) -> bool {
    forall|i: int|
        0 <= i < ops.len() ==> has_subcategory_with_id(subs, #[trigger] ops[i].subcategory_id)
}

/// All category identifiers lie below the next free one.
pub open spec fn cat_ids_below(s: Seq<Category>, n: usize) -> bool {
    forall|i: int| 0 <= i < s.len() ==> (#[trigger] s[i].id) < n
}

/// All subcategory identifiers lie below the next free one.
pub open spec fn sub_ids_below(s: Seq<Subcategory>, n: usize) -> bool {
    forall|i: int| 0 <= i < s.len() ==> (#[trigger] s[i].id) < n
}

/// All operation identifiers lie below the next free one.
pub open spec fn op_ids_below(s: Seq<Operation>, n: usize) -> bool {
    forall|i: int| 0 <= i < s.len() ==> (#[trigger] s[i].id) < n
}

/// The persistent state: three tables and the next identifier the store
/// will assign in each of them.
pub struct Store {
    pub categories: Vec<Category>,
    pub subcategories: Vec<Subcategory>,
    pub operations: Vec<Operation>,
    pub next_category_id: usize,
    pub next_subcategory_id: usize,
    pub next_operation_id: usize,
}

impl Store {
    /// The integrity rules of the schema: identifiers are unique and
    /// below the next free one, category names are unique, subcategory
    /// names are unique within their category, children reference
    /// existing parents, and operations are kept sorted.
    pub open spec fn wf(&self) -> bool {
        &&& cat_ids_distinct(self.categories@)
        &&& cat_names_distinct(self.categories@)
        &&& cat_ids_below(self.categories@, self.next_category_id)
        &&& sub_ids_distinct(self.subcategories@)
        &&& sub_pairs_distinct(self.subcategories@)
        &&& sub_ids_below(self.subcategories@, self.next_subcategory_id)
        &&& subs_reference_categories(self.subcategories@, self.categories@)
        &&& op_ids_distinct(self.operations@)
        &&& op_ids_below(self.operations@, self.next_operation_id)
        &&& ops_reference_subcategories(self.operations@, self.subcategories@)
        &&& ops_sorted(self.operations@)
    }

    /// The two stores hold the same rows and the same next identifiers.
    pub open spec fn same_state(&self, other: &Store) -> bool {
        &&& self.categories@ == other.categories@
        &&& self.subcategories@ == other.subcategories@
        &&& self.operations@ == other.operations@
        &&& self.next_category_id == other.next_category_id
        &&& self.next_subcategory_id == other.next_subcategory_id
        &&& self.next_operation_id == other.next_operation_id
    }

    /// An empty store; identifiers start at 1, as the storage engine's
    /// row identifiers do.
    pub fn new() -> (s: Store)
        ensures
            s.wf(),
            s.categories@.len() == 0,
            s.subcategories@.len() == 0,
            s.operations@.len() == 0,
            s.next_category_id == 1,
            s.next_subcategory_id == 1,
            s.next_operation_id == 1,
    {
        Store {
            categories: Vec::new(),
            subcategories: Vec::new(),
            operations: Vec::new(),
            next_category_id: 1,
            next_subcategory_id: 1,
            next_operation_id: 1,
        }
    }

    /// Creates a category. Fails, leaving every row unchanged, exactly
    /// when the name is already in use; otherwise appends one row with a
    /// fresh identifier and returns that identifier.
    #[verifier::loop_isolation(false)]
    pub fn create_category(&mut self, name: String) -> (r: Result<usize, StoreError>)
        requires
            old(self).wf(),
            old(self).next_category_id < usize::MAX,
        ensures
            final(self).wf(),
            r is Err <==> has_category_with_name(old(self).categories@, name@),
            r is Err ==> r == Err::<usize, StoreError>(StoreError::DuplicateCategoryName)
                && final(self).same_state(old(self)),
            r matches Ok(id) ==> {
                &&& id == old(self).next_category_id
                &&& forall|i: int|
                    0 <= i < old(self).categories@.len() ==> (
                    #[trigger] old(self).categories@[i]).id != id
                &&& final(self).categories@.len() == old(self).categories@.len() + 1
                &&& forall|i: int|
                    0 <= i < old(self).categories@.len() ==> final(self).categories@[i] == old(
                        self,
                    ).categories@[i]
                &&& final(self).categories@.last().id == id
                &&& final(self).categories@.last().name@ == name@
                &&& final(self).subcategories@ == old(self).subcategories@
                &&& final(self).operations@ == old(self).operations@
                &&& final(self).next_category_id == old(self).next_category_id + 1
                &&& final(self).next_subcategory_id == old(self).next_subcategory_id
                &&& final(self).next_operation_id == old(self).next_operation_id
            },
    {
        let n: usize = self.categories.len();
        let mut i: usize = 0;
        while i < n
            invariant
                0 <= i <= n,
                forall|j: int| 0 <= j < i ==> self.categories@[j].name@ != name@,
            decreases n - i,
        {
            if str_eq(self.categories[i].name.as_str(), name.as_str()) {
                return Err(StoreError::DuplicateCategoryName);
            }
            i += 1;
        }
        let id = self.next_category_id;
        self.categories.push(Category { id, name });
        self.next_category_id = id + 1;
        proof {
            let pre = old(self).categories@;
            let cs = self.categories@;
            assert forall|a: int, b: int| 0 <= a < b < cs.len() implies cs[a].id != cs[b].id by {
                if b < pre.len() {
                    assert(pre[a].id != pre[b].id);
                } else {
                    assert(pre[a].id < id);
                }
            }
            assert forall|a: int, b: int| 0 <= a < b < cs.len() implies cs[a].name@
                != cs[b].name@ by {
                if b < pre.len() {
                    assert(pre[a].name@ != pre[b].name@);
                } else {
                    assert(pre[a].name@ != name@);
                }
            }
            assert forall|k: int| 0 <= k < self.subcategories@.len() implies has_category_with_id(
                cs,
                #[trigger] self.subcategories@[k].category_id,
            ) by {
                let w = choose|w: int|
                    0 <= w < pre.len() && pre[w].id == self.subcategories@[k].category_id;
                assert(cs[w].id == self.subcategories@[k].category_id);
            }
        }
        Ok(id)
    }

    /// Creates a subcategory under a category. Fails, leaving every row
    /// unchanged, exactly when the category does not exist or already
    /// owns a subcategory with this name; otherwise appends one row with
    /// a fresh identifier and returns that identifier.
    #[verifier::loop_isolation(false)]
    pub fn create_subcategory(&mut self, category_id: usize, name: String) -> (r: Result<
        usize,
        StoreError,
    >)
        requires
            old(self).wf(),
            old(self).next_subcategory_id < usize::MAX,
        ensures
            final(self).wf(),
            r is Err <==> !has_category_with_id(old(self).categories@, category_id)
                || has_subcategory_with_pair(old(self).subcategories@, category_id, name@),
            r == Err::<usize, StoreError>(StoreError::UnknownCategory) <==> !has_category_with_id(
                old(self).categories@,
                category_id,
            ),
            r == Err::<usize, StoreError>(StoreError::DuplicateSubcategoryName)
                <==> has_category_with_id(old(self).categories@, category_id)
                && has_subcategory_with_pair(old(self).subcategories@, category_id, name@),
            r is Err ==> final(self).same_state(old(self)),
            r matches Ok(id) ==> {
                &&& id == old(self).next_subcategory_id
                &&& forall|i: int|
                    0 <= i < old(self).subcategories@.len() ==> (
                    #[trigger] old(self).subcategories@[i]).id != id
                &&& final(self).subcategories@.len() == old(self).subcategories@.len() + 1
                &&& forall|i: int|
                    0 <= i < old(self).subcategories@.len() ==> final(self).subcategories@[i]
                        == old(self).subcategories@[i]
                &&& final(self).subcategories@.last().id == id
                &&& final(self).subcategories@.last().category_id == category_id
                &&& final(self).subcategories@.last().name@ == name@
                &&& final(self).categories@ == old(self).categories@
                &&& final(self).operations@ == old(self).operations@
                &&& final(self).next_subcategory_id == old(self).next_subcategory_id + 1
                &&& final(self).next_category_id == old(self).next_category_id
                &&& final(self).next_operation_id == old(self).next_operation_id
            },
    {
        let ncats: usize = self.categories.len();
        let mut i: usize = 0;
        let mut found: bool = false;
        while i < ncats
            invariant
                0 <= i <= ncats,
                !found ==> forall|j: int| 0 <= j < i ==> self.categories@[j].id != category_id,
                found ==> has_category_with_id(self.categories@, category_id),
            decreases ncats - i,
        {
            if self.categories[i].id == category_id {
                found = true;
            }
            i += 1;
        }
        if !found {
            return Err(StoreError::UnknownCategory);
        }
        let nsubs: usize = self.subcategories.len();
        let mut k: usize = 0;
        while k < nsubs
            invariant
                0 <= k <= nsubs,
                forall|j: int|
                    0 <= j < k ==> !((#[trigger] self.subcategories@[j]).category_id == category_id
                        && self.subcategories@[j].name@ == name@),
            decreases nsubs - k,
        {
            if self.subcategories[k].category_id == category_id && str_eq(
                self.subcategories[k].name.as_str(),
                name.as_str(),
            ) {
                return Err(StoreError::DuplicateSubcategoryName);
            }
            k += 1;
        }
        let id = self.next_subcategory_id;
        self.subcategories.push(Subcategory { id, category_id, name });
        self.next_subcategory_id = id + 1;
        proof {
            let pre = old(self).subcategories@;
            let ss = self.subcategories@;
            assert forall|a: int, b: int| 0 <= a < b < ss.len() implies ss[a].id != ss[b].id by {
                if b < pre.len() {
                    assert(pre[a].id != pre[b].id);
                } else {
                    assert(pre[a].id < id);
                }
            }
            assert forall|a: int, b: int| 0 <= a < b < ss.len() implies !(ss[a].category_id
                == ss[b].category_id && ss[a].name@ == ss[b].name@) by {
                if b < pre.len() {
                    assert(!(pre[a].category_id == pre[b].category_id && pre[a].name@
                        == pre[b].name@));
                } else {
                    assert(!(pre[a].category_id == category_id && pre[a].name@ == name@));
                }
            }
            assert forall|m: int| 0 <= m < ss.len() implies has_category_with_id(
                self.categories@,
                #[trigger] ss[m].category_id,
            ) by {
                if m < pre.len() {
                    assert(has_category_with_id(self.categories@, pre[m].category_id));
                }
            }
            assert forall|m: int| 0 <= m < self.operations@.len() implies has_subcategory_with_id(
                ss,
                #[trigger] self.operations@[m].subcategory_id,
            ) by {
                let w = choose|w: int|
                    0 <= w < pre.len() && pre[w].id == self.operations@[m].subcategory_id;
                assert(ss[w].id == self.operations@[m].subcategory_id);
            }
        }
        Ok(id)
    }

    /// Books an operation under a subcategory. Fails, leaving every row
    /// unchanged, exactly when the subcategory does not exist; otherwise
    /// inserts one row with a fresh identifier at its place in the
    /// date-descending order and returns that identifier.
    #[verifier::loop_isolation(false)]
    #[verifier::rlimit(50)]
    pub fn create_operation(&mut self, subcategory_id: usize, date: String, value: u64) -> (r:
        Result<usize, StoreError>)
        requires
            old(self).wf(),
            old(self).next_operation_id < usize::MAX,
        ensures
            final(self).wf(),
            r is Err <==> !has_subcategory_with_id(old(self).subcategories@, subcategory_id),
            r is Err ==> r == Err::<usize, StoreError>(StoreError::UnknownSubcategory)
                && final(self).same_state(old(self)),
            r matches Ok(id) ==> {
                &&& id == old(self).next_operation_id
                &&& forall|i: int|
                    0 <= i < old(self).operations@.len() ==> (
                    #[trigger] old(self).operations@[i]).id != id
                &&& op_inserted(
                    old(self).operations@,
                    final(self).operations@,
                    id,
                    subcategory_id,
                    date@,
                    value,
                )
                &&& final(self).categories@ == old(self).categories@
                &&& final(self).subcategories@ == old(self).subcategories@
                &&& final(self).next_operation_id == old(self).next_operation_id + 1
                &&& final(self).next_category_id == old(self).next_category_id
                &&& final(self).next_subcategory_id == old(self).next_subcategory_id
            },
    {
        let nsubs: usize = self.subcategories.len();
        let mut i: usize = 0;
        let mut found: bool = false;
        while i < nsubs
            invariant
                0 <= i <= nsubs,
                !found ==> forall|j: int| 0 <= j < i ==> self.subcategories@[j].id
                    != subcategory_id,
                found ==> has_subcategory_with_id(self.subcategories@, subcategory_id),
            decreases nsubs - i,
        {
            if self.subcategories[i].id == subcategory_id {
                found = true;
            }
            i += 1;
        }
        if !found {
            return Err(StoreError::UnknownSubcategory);
        }
        let id = self.next_operation_id;
        let row = Operation { id, subcategory_id, date, value };
        let n: usize = self.operations.len();
        let mut k: usize = 0;
        while k < n && op_sorts_before_exec(&self.operations[k], &row)
            invariant
                0 <= k <= n,
                forall|m: int| 0 <= m < k ==> op_sorts_before(#[trigger] self.operations@[m], row),
            decreases n - k,
        {
            k += 1;
        }
        proof {
            let os = self.operations@;
            assert forall|m: int| k <= m < os.len() implies op_sorts_before(
                row,
                #[trigger] os[m],
            ) by {
                lemma_new_op_sorts_before(os, k as int, m, row);
            }
            os.insert_ensures(k as int, row);
        }
        self.operations.insert(k, row);
        self.next_operation_id = id + 1;
        proof {
            let pre = old(self).operations@;
            let os = self.operations@;
            let ki = k as int;
            assert forall|a: int, b: int| 0 <= a < b < os.len() implies op_sorts_before(
                os[a],
                os[b],
            ) by {
                if b < ki {
                    assert(op_sorts_before(pre[a], pre[b]));
                } else if a < ki && b == ki {
                    assert(op_sorts_before(pre[a], row));
                } else if a < ki && b > ki {
                    assert(op_sorts_before(pre[a], pre[b - 1]));
                } else if a == ki {
                    assert(op_sorts_before(row, pre[b - 1]));
                } else {
                    assert(op_sorts_before(pre[a - 1], pre[b - 1]));
                }
            }
            assert forall|a: int, b: int| 0 <= a < b < os.len() implies os[a].id != os[b].id by {
                if a != ki && b != ki {
                    let a0: int = if a < ki { a } else { a - 1 };
                    let b0: int = if b < ki { b } else { b - 1 };
                    assert(pre[a0].id != pre[b0].id);
                } else if a == ki {
                    assert(pre[b - 1].id < id);
                } else {
                    assert(pre[a].id < id);
                }
            }
            assert forall|m: int| 0 <= m < os.len() implies has_subcategory_with_id(
                self.subcategories@,
                #[trigger] os[m].subcategory_id,
            ) by {
                if m != ki {
                    let m0: int = if m < ki { m } else { m - 1 };
                    assert(has_subcategory_with_id(self.subcategories@, pre[m0].subcategory_id));
                }
            }
            assert forall|m: int| 0 <= m < os.len() implies (#[trigger] os[m].id) < id + 1 by {
                if m != ki {
                    let m0: int = if m < ki { m } else { m - 1 };
                    assert(pre[m0].id < id);
                }
            }
            assert(op_inserted_at(pre, os, ki, id, subcategory_id, date@, value));
            assert(op_inserted(pre, os, id, subcategory_id, date@, value));
        }
        Ok(id)
    }

    /// Deletes a category and, cascading, every subcategory it owns and
    /// every operation those subcategories own. Deleting a category that
    /// does not exist changes nothing. Rows that are kept keep their
    /// order.
    pub fn remove_category(&mut self, id: usize)
        requires
            old(self).wf(),
        ensures
            final(self).wf(),
            final(self).categories@ == old(self).categories@.filter(|c: Category| c.id != id),
            final(self).subcategories@ == old(self).subcategories@.filter(
                |s: Subcategory| s.category_id != id,
            ),
            final(self).operations@ == old(self).operations@.filter(
                |o: Operation| !op_owned_by_category(o, old(self).subcategories@, id),
            ),
            !has_category_with_id(final(self).categories@, id),
            forall|i: int|
                0 <= i < final(self).subcategories@.len() ==> (
                #[trigger] final(self).subcategories@[i]).category_id != id,
            forall|i: int|
                0 <= i < final(self).operations@.len() ==> !op_owned_by_category(
                    #[trigger] final(self).operations@[i],
                    old(self).subcategories@,
                    id,
                ),
            final(self).next_category_id == old(self).next_category_id,
            final(self).next_subcategory_id == old(self).next_subcategory_id,
            final(self).next_operation_id == old(self).next_operation_id,
    {
        let ghost cats0 = self.categories@;
        let ghost subs0 = self.subcategories@;
        let ghost ops0 = self.operations@;
        retain_ops_not_owned(&mut self.operations, &self.subcategories, id);
        retain_subs_not_under(&mut self.subcategories, id);
        retain_cats_excluding(&mut self.categories, id);
        proof {
            let catp = |c: Category| c.id != id;
            let subp = |s: Subcategory| s.category_id != id;
            let opp = |o: Operation| !op_owned_by_category(o, subs0, id);
            let cats = self.categories@;
            let subs = self.subcategories@;
            let ops = self.operations@;
            broadcast use vstd::seq_lib::group_filter_ensures;

            crate::filter::lemma_filter_keeps_pairwise(
                cats0,
                catp,
                |a: Category, b: Category| a.id != b.id && a.name@ != b.name@,
            );
            crate::filter::lemma_filter_elems(cats0, catp);
            crate::filter::lemma_filter_keeps_pairwise(
                subs0,
                subp,
                |a: Subcategory, b: Subcategory| a.id != b.id && !(a.category_id == b.category_id
                    && a.name@ == b.name@),
            );
            crate::filter::lemma_filter_elems(subs0, subp);
            crate::filter::lemma_filter_keeps_pairwise(
                ops0,
                opp,
                |a: Operation, b: Operation| a.id != b.id && op_sorts_before(a, b),
            );
            crate::filter::lemma_filter_elems(ops0, opp);
            assert forall|m: int| 0 <= m < cats.len() implies (#[trigger] cats[m]).id
                < self.next_category_id by {
                let w = choose|w: int| 0 <= w < cats0.len() && cats0[w] == cats[m];
            }
            assert forall|m: int| 0 <= m < subs.len() implies (#[trigger] subs[m]).id
                < self.next_subcategory_id by {
                let w = choose|w: int| 0 <= w < subs0.len() && subs0[w] == subs[m];
            }
            assert forall|m: int| 0 <= m < ops.len() implies (#[trigger] ops[m]).id
                < self.next_operation_id by {
                let w = choose|w: int| 0 <= w < ops0.len() && ops0[w] == ops[m];
            }
            assert forall|m: int| 0 <= m < subs.len() implies has_category_with_id(
                cats,
                #[trigger] subs[m].category_id,
            ) by {
                let w = choose|w: int| 0 <= w < subs0.len() && subs0[w] == subs[m];
                assert(has_category_with_id(cats0, subs0[w].category_id));
                let c = choose|c: int| 0 <= c < cats0.len() && cats0[c].id == subs[m].category_id;
                assert(subs[m].category_id != id);
                assert(catp(cats0[c]));
                assert(cats0.contains(cats0[c]));
                assert(cats.contains(cats0[c]));
            }
            assert forall|m: int| 0 <= m < ops.len() implies has_subcategory_with_id(
                subs,
                #[trigger] ops[m].subcategory_id,
            ) by {
                let w = choose|w: int| 0 <= w < ops0.len() && ops0[w] == ops[m];
                assert(!op_owned_by_category(ops[m], subs0, id));
                assert(has_subcategory_with_id(subs0, ops0[w].subcategory_id));
                let s = choose|s: int|
                    0 <= s < subs0.len() && subs0[s].id == ops[m].subcategory_id;
                assert(subs0[s].category_id != id);
                assert(subp(subs0[s]));
                assert(subs0.contains(subs0[s]));
                assert(subs.contains(subs0[s]));
            }
            assert forall|m: int| 0 <= m < cats.len() implies (#[trigger] cats[m]).id != id by {
                assert(catp(cats[m]));
            }
        }
    }

    /// Deletes a subcategory and, cascading, every operation it owns.
    /// Deleting a subcategory that does not exist changes nothing.
    /// Rows that are kept keep their order.
    pub fn remove_subcategory(&mut self, id: usize)
        requires
            old(self).wf(),
        ensures
            final(self).wf(),
            final(self).categories@ == old(self).categories@,
            final(self).subcategories@ == old(self).subcategories@.filter(
                |s: Subcategory| s.id != id,
            ),
            final(self).operations@ == old(self).operations@.filter(
                |o: Operation| o.subcategory_id != id,
            ),
            !has_subcategory_with_id(final(self).subcategories@, id),
            forall|i: int|
                0 <= i < final(self).operations@.len() ==> (
                #[trigger] final(self).operations@[i]).subcategory_id != id,
            final(self).next_category_id == old(self).next_category_id,
            final(self).next_subcategory_id == old(self).next_subcategory_id,
            final(self).next_operation_id == old(self).next_operation_id,
    {
        let ghost subs0 = self.subcategories@;
        let ghost ops0 = self.operations@;
        retain_ops_not_under(&mut self.operations, id);
        retain_subs_excluding(&mut self.subcategories, id);
        proof {
            let subp = |s: Subcategory| s.id != id;
            let opp = |o: Operation| o.subcategory_id != id;
            let subs = self.subcategories@;
            let ops = self.operations@;
            broadcast use vstd::seq_lib::group_filter_ensures;

            crate::filter::lemma_filter_keeps_pairwise(
                subs0,
                subp,
                |a: Subcategory, b: Subcategory| a.id != b.id && !(a.category_id == b.category_id
                    && a.name@ == b.name@),
            );
            crate::filter::lemma_filter_elems(subs0, subp);
            crate::filter::lemma_filter_keeps_pairwise(
                ops0,
                opp,
                |a: Operation, b: Operation| a.id != b.id && op_sorts_before(a, b),
            );
            crate::filter::lemma_filter_elems(ops0, opp);
            assert forall|m: int| 0 <= m < subs.len() implies (#[trigger] subs[m]).id
                < self.next_subcategory_id && has_category_with_id(
                self.categories@,
                subs[m].category_id,
            ) && subs[m].id != id by {
                let w = choose|w: int| 0 <= w < subs0.len() && subs0[w] == subs[m];
                assert(has_category_with_id(self.categories@, subs0[w].category_id));
                assert(subp(subs[m]));
            }
            assert forall|m: int| 0 <= m < ops.len() implies (#[trigger] ops[m]).id
                < self.next_operation_id && has_subcategory_with_id(
                subs,
                ops[m].subcategory_id,
            ) by {
                let w = choose|w: int| 0 <= w < ops0.len() && ops0[w] == ops[m];
                assert(opp(ops[m]));
                assert(has_subcategory_with_id(subs0, ops0[w].subcategory_id));
                let s = choose|s: int|
                    0 <= s < subs0.len() && subs0[s].id == ops[m].subcategory_id;
                assert(subp(subs0[s]));
                assert(subs0.contains(subs0[s]));
                assert(subs.contains(subs0[s]));
            }
        }
    }

    /// Renames a category. Renaming an id that no category carries is a
    /// silent no-op. Fails, leaving every row unchanged, exactly when the
    /// target exists and another category already carries the new name.
    #[verifier::loop_isolation(false)]
    pub fn update_category(&mut self, id: usize, name: String) -> (r: Result<(), StoreError>)
        requires
            old(self).wf(),
        ensures
            final(self).wf(),
            r is Err <==> has_category_with_id(old(self).categories@, id)
                && cat_name_taken_by_other(old(self).categories@, id, name@),
            r is Err ==> r == Err::<(), StoreError>(StoreError::DuplicateCategoryName) && final(self).same_state(old(self)),
            !has_category_with_id(old(self).categories@, id) ==> r is Ok && final(self).same_state(old(self)),
            r is Ok ==> {
                &&& final(self).categories@.len() == old(self).categories@.len()
                &&& forall|i: int|
                    0 <= i < old(self).categories@.len() && (#[trigger] old(
                        self,
                    ).categories@[i]).id != id ==> final(self).categories@[i] == old(
                        self,
                    ).categories@[i]
                &&& forall|i: int|
                    0 <= i < old(self).categories@.len() && (#[trigger] old(
                        self,
                    ).categories@[i]).id == id ==> final(self).categories@[i].id == id && final(self).categories@[i].name@ == name@
                &&& final(self).subcategories@ == old(self).subcategories@
                &&& final(self).operations@ == old(self).operations@
                &&& final(self).next_category_id == old(self).next_category_id
                &&& final(self).next_subcategory_id == old(self).next_subcategory_id
                &&& final(self).next_operation_id == old(self).next_operation_id
            },
    {
        let n: usize = self.categories.len();
        let mut t: usize = 0;
        while t < n && self.categories[t].id != id
            invariant
                0 <= t <= n,
                forall|j: int| 0 <= j < t ==> (#[trigger] self.categories@[j]).id != id,
            decreases n - t,
        {
            t += 1;
        }
        if t == n {
            assert(!has_category_with_id(self.categories@, id));
            return Ok(());
        }
        let mut j: usize = 0;
        while j < n
            invariant
                0 <= j <= n,
                forall|m: int|
                    0 <= m < j ==> !((#[trigger] self.categories@[m]).id != id
                        && self.categories@[m].name@ == name@),
            decreases n - j,
        {
            if self.categories[j].id != id && str_eq(self.categories[j].name.as_str(), name.as_str()) {
                return Err(StoreError::DuplicateCategoryName);
            }
            j += 1;
        }
        self.categories[t] = Category { id, name };
        proof {
            let pre = old(self).categories@;
            let cs = self.categories@;
            let ti = t as int;
            assert forall|a: int, b: int| 0 <= a < b < cs.len() implies cs[a].id != cs[b].id
                && cs[a].name@ != cs[b].name@ by {
                if a != ti && b != ti {
                    assert(pre[a].id != pre[b].id && pre[a].name@ != pre[b].name@);
                } else if a == ti {
                    assert(pre[b].id != id && pre[b].name@ != name@);
                } else {
                    assert(pre[a].id != id && pre[a].name@ != name@);
                }
            }
            assert forall|m: int| 0 <= m < self.subcategories@.len() implies has_category_with_id(
                cs,
                #[trigger] self.subcategories@[m].category_id,
            ) by {
                let w = choose|w: int|
                    0 <= w < pre.len() && pre[w].id == self.subcategories@[m].category_id;
                assert(cs[w].id == self.subcategories@[m].category_id);
            }
        }
        Ok(())
    }

    /// Renames a subcategory; its parent category stays as it is.
    /// Renaming an id that no subcategory carries is a silent no-op.
    /// Fails, leaving every row unchanged, exactly when the target exists
    /// and a sibling under the same category already carries the new name.
    #[verifier::loop_isolation(false)]
    pub fn update_subcategory(&mut self, id: usize, name: String) -> (r: Result<(), StoreError>)
        requires
            old(self).wf(),
        ensures
            final(self).wf(),
            r is Err <==> sub_rename_conflict(old(self).subcategories@, id, name@),
            r is Err ==> r == Err::<(), StoreError>(StoreError::DuplicateSubcategoryName) && final(self).same_state(old(self)),
            !has_subcategory_with_id(old(self).subcategories@, id) ==> r is Ok && final(self).same_state(old(self)),
            r is Ok ==> {
                &&& final(self).subcategories@.len() == old(self).subcategories@.len()
                &&& forall|i: int|
                    0 <= i < old(self).subcategories@.len() && (#[trigger] old(
                        self,
                    ).subcategories@[i]).id != id ==> final(self).subcategories@[i] == old(
                        self,
                    ).subcategories@[i]
                &&& forall|i: int|
                    0 <= i < old(self).subcategories@.len() && (#[trigger] old(
                        self,
                    ).subcategories@[i]).id == id ==> final(self).subcategories@[i].id == id
                        && final(self).subcategories@[i].category_id == old(
                        self,
                    ).subcategories@[i].category_id && final(self).subcategories@[i].name@ == name@
                &&& final(self).categories@ == old(self).categories@
                &&& final(self).operations@ == old(self).operations@
                &&& final(self).next_category_id == old(self).next_category_id
                &&& final(self).next_subcategory_id == old(self).next_subcategory_id
                &&& final(self).next_operation_id == old(self).next_operation_id
            },
    {
        let n: usize = self.subcategories.len();
        let mut t: usize = 0;
        while t < n && self.subcategories[t].id != id
            invariant
                0 <= t <= n,
                forall|j: int| 0 <= j < t ==> (#[trigger] self.subcategories@[j]).id != id,
            decreases n - t,
        {
            t += 1;
        }
        if t == n {
            assert(!has_subcategory_with_id(self.subcategories@, id));
            assert(!sub_rename_conflict(self.subcategories@, id, name@));
            return Ok(());
        }
        let category_id = self.subcategories[t].category_id;
        let mut j: usize = 0;
        while j < n
            invariant
                0 <= j <= n,
                forall|m: int|
                    0 <= m < j ==> !((#[trigger] self.subcategories@[m]).id != id
                        && self.subcategories@[m].category_id == category_id
                        && self.subcategories@[m].name@ == name@),
            decreases n - j,
        {
            if self.subcategories[j].id != id && self.subcategories[j].category_id == category_id
                && str_eq(self.subcategories[j].name.as_str(), name.as_str()) {
                assert(sub_rename_conflict(self.subcategories@, id, name@));
                return Err(StoreError::DuplicateSubcategoryName);
            }
            j += 1;
        }
        self.subcategories[t] = Subcategory { id, category_id, name };
        proof {
            let pre = old(self).subcategories@;
            let ss = self.subcategories@;
            let ti = t as int;
            assert(!sub_rename_conflict(pre, id, name@));
            assert forall|a: int, b: int| 0 <= a < b < ss.len() implies ss[a].id != ss[b].id && !(
            ss[a].category_id == ss[b].category_id && ss[a].name@ == ss[b].name@) by {
                if a != ti && b != ti {
                    assert(pre[a].id != pre[b].id);
                    assert(!(pre[a].category_id == pre[b].category_id && pre[a].name@
                        == pre[b].name@));
                } else if a == ti {
                    assert(pre[b].id != id);
                    assert(!(pre[b].category_id == category_id && pre[b].name@ == name@));
                } else {
                    assert(pre[a].id != id);
                    assert(!(pre[a].category_id == category_id && pre[a].name@ == name@));
                }
            }
            assert forall|m: int| 0 <= m < ss.len() implies has_category_with_id(
                self.categories@,
                #[trigger] ss[m].category_id,
            ) by {
                assert(has_category_with_id(self.categories@, pre[m].category_id));
            }
            assert forall|m: int| 0 <= m < self.operations@.len() implies has_subcategory_with_id(
                ss,
                #[trigger] self.operations@[m].subcategory_id,
            ) by {
                let w = choose|w: int|
                    0 <= w < pre.len() && pre[w].id == self.operations@[m].subcategory_id;
                assert(ss[w].id == self.operations@[m].subcategory_id);
            }
        }
        Ok(())
    }

    /// Every category row, in storage order.
    #[verifier::loop_isolation(false)]
    pub fn list_categories(&self) -> (r: Vec<Category>)
        ensures
            r@.len() == self.categories@.len(),
            forall|i: int|
                0 <= i < r@.len() ==> (#[trigger] r@[i]).id == self.categories@[i].id && r@[i].name@
                    == self.categories@[i].name@,
    {
        let n: usize = self.categories.len();
        let mut out: Vec<Category> = Vec::new();
        let mut i: usize = 0;
        while i < n
            invariant
                0 <= i <= n,
                out@.len() == i,
                forall|j: int|
                    0 <= j < i ==> (#[trigger] out@[j]).id == self.categories@[j].id && out@[j].name@
                        == self.categories@[j].name@,
            decreases n - i,
        {
            out.push(self.categories[i].duplicate());
            i += 1;
        }
        out
    }

    /// Every subcategory row, in storage order.
    #[verifier::loop_isolation(false)]
    pub fn list_subcategories(&self) -> (r: Vec<Subcategory>)
        ensures
            r@.len() == self.subcategories@.len(),
            forall|i: int|
                0 <= i < r@.len() ==> (#[trigger] r@[i]).id == self.subcategories@[i].id
                    && r@[i].category_id == self.subcategories@[i].category_id && r@[i].name@
                    == self.subcategories@[i].name@,
    {
        let n: usize = self.subcategories.len();
        let mut out: Vec<Subcategory> = Vec::new();
        let mut i: usize = 0;
        while i < n
            invariant
                0 <= i <= n,
                out@.len() == i,
                forall|j: int|
                    0 <= j < i ==> (#[trigger] out@[j]).id == self.subcategories@[j].id
                        && out@[j].category_id == self.subcategories@[j].category_id
                        && out@[j].name@ == self.subcategories@[j].name@,
            decreases n - i,
        {
            out.push(self.subcategories[i].duplicate());
            i += 1;
        }
        out
    }

    /// Every operation row, most recent date first, ties broken by
    /// identifier descending.
    #[verifier::loop_isolation(false)]
    pub fn list_operations(&self) -> (r: Vec<Operation>)
        requires
            self.wf(),
        ensures
            r@.len() == self.operations@.len(),
            forall|i: int|
                0 <= i < r@.len() ==> (#[trigger] r@[i]).id == self.operations@[i].id
                    && r@[i].subcategory_id == self.operations@[i].subcategory_id && r@[i].date@
                    == self.operations@[i].date@ && r@[i].value == self.operations@[i].value,
            ops_sorted(r@),
    {
        let n: usize = self.operations.len();
        let mut out: Vec<Operation> = Vec::new();
        let mut i: usize = 0;
        while i < n
            invariant
                0 <= i <= n,
                out@.len() == i,
                forall|j: int|
                    0 <= j < i ==> (#[trigger] out@[j]).id == self.operations@[j].id
                        && out@[j].subcategory_id == self.operations@[j].subcategory_id
                        && out@[j].date@ == self.operations@[j].date@ && out@[j].value
                        == self.operations@[j].value,
            decreases n - i,
        {
            out.push(self.operations[i].duplicate());
            i += 1;
        }
        proof {
            assert forall|a: int, b: int| 0 <= a < b < out@.len() implies op_sorts_before(
                out@[a],
                out@[b],
            ) by {
                assert(op_sorts_before(self.operations@[a], self.operations@[b]));
            }
        }
        out
    }
}

/// Another category than the one with the given id already carries the name.
pub open spec fn cat_name_taken_by_other(s: Seq<Category>, id: usize, name: Seq<char>) -> bool {
    exists|i: int| 0 <= i < s.len() && (#[trigger] s[i]).id != id && s[i].name@ == name
}

/// Renaming the subcategory with the given id to the name would collide
/// with a sibling under the same parent category.
pub open spec fn sub_rename_conflict(s: Seq<Subcategory>, id: usize, name: Seq<char>) -> bool {
    exists|t: int, j: int|
        0 <= t < s.len() && 0 <= j < s.len() && (#[trigger] s[t]).id == id && (#[trigger] s[j]).id
            != id && s[j].category_id == s[t].category_id && s[j].name@ == name
}

/// A valid create is listed exactly once: when a category table grows by
/// one row whose identifier no earlier row carries, exactly one row of
/// the grown table carries that identifier, and it carries the submitted
/// name.
pub proof fn lemma_created_category_listed_once(
    pre: Seq<Category>,
    post: Seq<Category>,
    id: usize,
    name: Seq<char>,
)
    requires
        forall|i: int| 0 <= i < pre.len() ==> (#[trigger] pre[i]).id != id,
        post.len() == pre.len() + 1,
        forall|i: int| 0 <= i < pre.len() ==> post[i] == pre[i],
        post[pre.len() as int].id == id,
        post[pre.len() as int].name@ == name,
    ensures
        exists|j: int| 0 <= j < post.len() && (#[trigger] post[j]).id == id,
        forall|j1: int, j2: int|
            0 <= j1 < post.len() && 0 <= j2 < post.len() && (#[trigger] post[j1]).id == id && (
            #[trigger] post[j2]).id == id ==> j1 == j2,
        forall|j: int|
            0 <= j < post.len() && (#[trigger] post[j]).id == id ==> post[j].name@ == name,
{
    assert(post[pre.len() as int].id == id);
}

/// A valid create is listed exactly once: when a subcategory table grows
/// by one row whose identifier no earlier row carries, exactly one row of
/// the grown table carries that identifier, and it carries the submitted
/// parent category and name.
pub proof fn lemma_created_subcategory_listed_once(
    pre: Seq<Subcategory>,
    post: Seq<Subcategory>,
    id: usize,
    category_id: usize,
    name: Seq<char>,
)
    requires
        forall|i: int| 0 <= i < pre.len() ==> (#[trigger] pre[i]).id != id,
        post.len() == pre.len() + 1,
        forall|i: int| 0 <= i < pre.len() ==> post[i] == pre[i],
        post[pre.len() as int].id == id,
        post[pre.len() as int].category_id == category_id,
        post[pre.len() as int].name@ == name,
    ensures
        exists|j: int| 0 <= j < post.len() && (#[trigger] post[j]).id == id,
        forall|j1: int, j2: int|
            0 <= j1 < post.len() && 0 <= j2 < post.len() && (#[trigger] post[j1]).id == id && (
            #[trigger] post[j2]).id == id ==> j1 == j2,
        forall|j: int|
            0 <= j < post.len() && (#[trigger] post[j]).id == id ==> post[j].category_id
                == category_id && post[j].name@ == name,
{
    assert(post[pre.len() as int].id == id);
}

/// A valid create is listed exactly once: when an operation table gains
/// one inserted row whose identifier no earlier row carries, exactly one
/// row of the grown table carries that identifier, and it carries the
/// submitted subcategory, date and value.
pub proof fn lemma_created_operation_listed_once(
    pre: Seq<Operation>,
    post: Seq<Operation>,
    id: usize,
    sub: usize,
    date: Seq<char>,
    value: u64,
)
    requires
        forall|i: int| 0 <= i < pre.len() ==> (#[trigger] pre[i]).id != id,
        op_inserted(pre, post, id, sub, date, value),
    ensures
        exists|j: int| 0 <= j < post.len() && (#[trigger] post[j]).id == id,
        forall|j1: int, j2: int|
            0 <= j1 < post.len() && 0 <= j2 < post.len() && (#[trigger] post[j1]).id == id && (
            #[trigger] post[j2]).id == id ==> j1 == j2,
        forall|j: int|
            0 <= j < post.len() && (#[trigger] post[j]).id == id ==> op_fields(
                post[j],
                id,
                sub,
                date,
                value,
            ),
{
    let k = choose|k: int| op_inserted_at(pre, post, k, id, sub, date, value);
    assert(post[k].id == id);
    assert forall|j: int| 0 <= j < post.len() && (#[trigger] post[j]).id == id implies j == k by {
        if j < k {
            assert(post[j] == pre[j]);
        } else if j > k {
            assert(post[j] == pre[j - 1]);
        }
    }
}

/// The operation belongs, through its subcategory, to the given category.
pub open spec fn op_owned_by_category(o: Operation, subs: Seq<Subcategory>, cat: usize) -> bool {
    exists|j: int|
        0 <= j < subs.len() && subs[j].id == o.subcategory_id && subs[j].category_id == cat
}

/// Whether the operation belongs, through its subcategory, to the category.
#[verifier::loop_isolation(false)]
fn op_owned_by_category_exec(o: &Operation, subs: &Vec<Subcategory>, cat: usize) -> (r: bool)
    ensures
        r == op_owned_by_category(*o, subs@, cat),
{
    let n: usize = subs.len();
    let mut i: usize = 0;
    while i < n
        invariant
            0 <= i <= n,
            forall|j: int|
                0 <= j < i ==> !((#[trigger] subs@[j]).id == o.subcategory_id
                    && subs@[j].category_id == cat),
        decreases n - i,
    {
        if subs[i].id == o.subcategory_id && subs[i].category_id == cat {
            return true;
        }
        i += 1;
    }
    false
}

/// Keeps the categories whose identifier is not the given one.
#[verifier::loop_isolation(false)]
fn retain_cats_excluding(v: &mut Vec<Category>, id: usize)
    ensures
        final(v)@ == old(v)@.filter(|c: Category| c.id != id),
{
    let ghost orig = v@;
    let ghost pred = |c: Category| c.id != id;
    let mut kept: Vec<Category> = Vec::new();
    proof {
        assert(orig.skip(0) =~= orig);
        assert(orig.subrange(0, 0) =~= Seq::<Category>::empty());
        assert(Seq::<Category>::empty().filter(pred) =~= Seq::<Category>::empty());
    }
    while v.len() > 0
        invariant
            v@.len() <= orig.len(),
            v@ == orig.skip(orig.len() - v@.len()),
            kept@ == orig.subrange(0, orig.len() - v@.len()).filter(pred),
        decreases v@.len(),
    {
        let ghost i = orig.len() - v@.len();
        let x = v.remove(0);
        proof {
            assert(x == orig[i]);
            assert(v@ =~= orig.skip(i + 1));
            assert(orig.subrange(0, i + 1) =~= orig.subrange(0, i) + seq![x]);
            crate::filter::lemma_filter_push(orig.subrange(0, i), x, pred);
        }
        if x.id != id {
            kept.push(x);
        }
    }
    proof {
        assert(orig.subrange(0, orig.len() as int) =~= orig);
    }
    *v = kept;
}

/// Keeps the subcategories not owned by the given category.
#[verifier::loop_isolation(false)]
fn retain_subs_not_under(v: &mut Vec<Subcategory>, cat: usize)
    ensures
        final(v)@ == old(v)@.filter(|s: Subcategory| s.category_id != cat),
{
    let ghost orig = v@;
    let ghost pred = |s: Subcategory| s.category_id != cat;
    let mut kept: Vec<Subcategory> = Vec::new();
    proof {
        assert(orig.skip(0) =~= orig);
        assert(orig.subrange(0, 0) =~= Seq::<Subcategory>::empty());
        assert(Seq::<Subcategory>::empty().filter(pred) =~= Seq::<Subcategory>::empty());
    }
    while v.len() > 0
        invariant
            v@.len() <= orig.len(),
            v@ == orig.skip(orig.len() - v@.len()),
            kept@ == orig.subrange(0, orig.len() - v@.len()).filter(pred),
        decreases v@.len(),
    {
        let ghost i = orig.len() - v@.len();
        let x = v.remove(0);
        proof {
            assert(x == orig[i]);
            assert(v@ =~= orig.skip(i + 1));
            assert(orig.subrange(0, i + 1) =~= orig.subrange(0, i) + seq![x]);
            crate::filter::lemma_filter_push(orig.subrange(0, i), x, pred);
        }
        if x.category_id != cat {
            kept.push(x);
        }
    }
    proof {
        assert(orig.subrange(0, orig.len() as int) =~= orig);
    }
    *v = kept;
}

/// Keeps the subcategories whose identifier is not the given one.
#[verifier::loop_isolation(false)]
fn retain_subs_excluding(v: &mut Vec<Subcategory>, id: usize)
    ensures
        final(v)@ == old(v)@.filter(|s: Subcategory| s.id != id),
{
    let ghost orig = v@;
    let ghost pred = |s: Subcategory| s.id != id;
    let mut kept: Vec<Subcategory> = Vec::new();
    proof {
        assert(orig.skip(0) =~= orig);
        assert(orig.subrange(0, 0) =~= Seq::<Subcategory>::empty());
        assert(Seq::<Subcategory>::empty().filter(pred) =~= Seq::<Subcategory>::empty());
    }
    while v.len() > 0
        invariant
            v@.len() <= orig.len(),
            v@ == orig.skip(orig.len() - v@.len()),
            kept@ == orig.subrange(0, orig.len() - v@.len()).filter(pred),
        decreases v@.len(),
    {
        let ghost i = orig.len() - v@.len();
        let x = v.remove(0);
        proof {
            assert(x == orig[i]);
            assert(v@ =~= orig.skip(i + 1));
            assert(orig.subrange(0, i + 1) =~= orig.subrange(0, i) + seq![x]);
            crate::filter::lemma_filter_push(orig.subrange(0, i), x, pred);
        }
        if x.id != id {
            kept.push(x);
        }
    }
    proof {
        assert(orig.subrange(0, orig.len() as int) =~= orig);
    }
    *v = kept;
}

/// Keeps the operations booked directly under the given subcategory out.
#[verifier::loop_isolation(false)]
fn retain_ops_not_under(v: &mut Vec<Operation>, sub: usize)
    ensures
        final(v)@ == old(v)@.filter(|o: Operation| o.subcategory_id != sub),
{
    let ghost orig = v@;
    let ghost pred = |o: Operation| o.subcategory_id != sub;
    let mut kept: Vec<Operation> = Vec::new();
    proof {
        assert(orig.skip(0) =~= orig);
        assert(orig.subrange(0, 0) =~= Seq::<Operation>::empty());
        assert(Seq::<Operation>::empty().filter(pred) =~= Seq::<Operation>::empty());
    }
    while v.len() > 0
        invariant
            v@.len() <= orig.len(),
            v@ == orig.skip(orig.len() - v@.len()),
            kept@ == orig.subrange(0, orig.len() - v@.len()).filter(pred),
        decreases v@.len(),
    {
        let ghost i = orig.len() - v@.len();
        let x = v.remove(0);
        proof {
            assert(x == orig[i]);
            assert(v@ =~= orig.skip(i + 1));
            assert(orig.subrange(0, i + 1) =~= orig.subrange(0, i) + seq![x]);
            crate::filter::lemma_filter_push(orig.subrange(0, i), x, pred);
        }
        if x.subcategory_id != sub {
            kept.push(x);
        }
    }
    proof {
        assert(orig.subrange(0, orig.len() as int) =~= orig);
    }
    *v = kept;
}

/// Keeps the operations not owned, through their subcategory, by the
/// given category.
#[verifier::loop_isolation(false)]
fn retain_ops_not_owned(v: &mut Vec<Operation>, subs: &Vec<Subcategory>, cat: usize)
    ensures
        final(v)@ == old(v)@.filter(|o: Operation| !op_owned_by_category(o, subs@, cat)),
{
    let ghost orig = v@;
    let ghost pred = |o: Operation| !op_owned_by_category(o, subs@, cat);
    let mut kept: Vec<Operation> = Vec::new();
    proof {
        assert(orig.skip(0) =~= orig);
        assert(orig.subrange(0, 0) =~= Seq::<Operation>::empty());
        assert(Seq::<Operation>::empty().filter(pred) =~= Seq::<Operation>::empty());
    }
    while v.len() > 0
        invariant
            v@.len() <= orig.len(),
            v@ == orig.skip(orig.len() - v@.len()),
            kept@ == orig.subrange(0, orig.len() - v@.len()).filter(pred),
        decreases v@.len(),
    {
        let ghost i = orig.len() - v@.len();
        let x = v.remove(0);
        proof {
            assert(x == orig[i]);
            assert(v@ =~= orig.skip(i + 1));
            assert(orig.subrange(0, i + 1) =~= orig.subrange(0, i) + seq![x]);
            crate::filter::lemma_filter_push(orig.subrange(0, i), x, pred);
        }
        if !op_owned_by_category_exec(&x, subs, cat) {
            kept.push(x);
        }
    }
    proof {
        assert(orig.subrange(0, orig.len() as int) =~= orig);
    }
    *v = kept;
}

/// The fields of one operation row.
pub open spec fn op_fields(o: Operation, id: usize, sub: usize, date: Seq<char>, value: u64) -> bool {
    &&& o.id == id
    &&& o.subcategory_id == sub
    &&& o.date@ == date
    &&& o.value == value
}

/// `post` is `pre` with one new row, carrying the given fields, inserted
/// at some position; every other row keeps its place and order.
pub open spec fn op_inserted(
    pre: Seq<Operation>,
    post: Seq<Operation>,
    id: usize,
    sub: usize,
    date: Seq<char>,
    value: u64,
) -> bool {
    exists|k: int| op_inserted_at(pre, post, k, id, sub, date, value)
}

/// `post` is `pre` with one new row, carrying the given fields, inserted
/// at position `k`; every other row keeps its place and order.
pub open spec fn op_inserted_at(
    pre: Seq<Operation>,
    post: Seq<Operation>,
    k: int,
    id: usize,
    sub: usize,
    date: Seq<char>,
    value: u64,
) -> bool {
    &&& 0 <= k <= pre.len()
    &&& post.len() == pre.len() + 1
    &&& op_fields(post[k], id, sub, date, value)
    &&& forall|i: int| 0 <= i < k ==> post[i] == pre[i]
    &&& forall|i: int| k <= i < pre.len() ==> post[i + 1] == pre[i]
}

/// A row whose identifier is above every identifier in a sorted table
/// sorts before each row from the first one whose date is not later
/// than its own.
proof fn lemma_new_op_sorts_before(os: Seq<Operation>, k: int, m: int, row: Operation)
    requires
        0 <= k <= m < os.len(),
        ops_sorted(os),
        forall|i: int| 0 <= i < os.len() ==> (#[trigger] os[i].id) < row.id,
        !op_sorts_before(os[k], row),
    ensures
        op_sorts_before(row, os[m]),
{
    crate::order::lemma_date_trichotomy(row.date@, os[k].date@);
    assert(op_sorts_before(row, os[k]));
    if m > k {
        crate::order::lemma_op_sorts_before_transitive(row, os[k], os[m]);
    }
}

} // verus!

//! Record type filters: which record types a reader keeps.

use vstd::prelude::*;
use crate::Error;
use crate::record_types::{RECORD_TYPE_COUNT, record_type_at, record_type_names, is_record_type_name};
use crate::strings::{str_eq, to_ascii_uppercase, upper_chars};

verus! {

/// The record types to keep, as given (the names in any case) to a reader.
///
/// The names are held in a `Vec` in which none occurs twice, so the filter is a set. A
/// `HashSet` of `&str` was not used: vstd specifies the lookups of a hash set only for keys
/// whose hashing it models, which string slices are not, so membership in one could not
/// be proved. Order is not part of the filter's view.
#[derive(Debug)]
pub struct RecordFilter {
    names: Vec<&'static str>,
}

impl RecordFilter {
    /// Each name is a record type name, and none occurs twice.
    #[verifier::type_invariant]
    spec fn wf(&self) -> bool {
        &&& forall|i: int| 0 <= i < self.names@.len() ==> is_record_type_name(#[trigger] self.names@[i]@)
        &&& forall|i: int, j: int|
            0 <= i < j < self.names@.len() ==> #[trigger] self.names@[i]@ != #[trigger] self.names@[j]@
    }
}

impl View for RecordFilter {
    type V = Set<Seq<char>>;

    closed spec fn view(&self) -> Set<Seq<char>> {
        Set::new(|n: Seq<char>| exists|i: int| 0 <= i < self.names@.len() && self.names@[i]@ == n)
    }
}

/// Whether `t`, in any case, names a record type.
pub open spec fn names_record_type(t: Seq<char>) -> bool {
    is_record_type_name(upper_chars(t))
}

/// The set of record types that the names `types` select.
pub open spec fn selected_types(types: Seq<&str>) -> Set<Seq<char>> {
    Set::new(|n: Seq<char>| exists|i: int| 0 <= i < types.len() && n == upper_chars(types[i]@))
}

/// The position of the first name in `types` that names no record type, if any.
pub open spec fn first_unknown(types: Seq<&str>, k: int) -> bool {
    &&& 0 <= k < types.len()
    &&& !names_record_type(types[k]@)
    &&& forall|j: int| 0 <= j < k ==> names_record_type(#[trigger] types[j]@)
}

/// A filter does not depend on the case of the names it is given: names that are the
/// same but for ASCII case select the same record types, and are all record types or not.
pub proof fn law_filter_ignores_case(a: Seq<&str>, b: Seq<&str>)
    requires
        a.len() == b.len(),
        forall|i: int| 0 <= i < a.len() ==> upper_chars(#[trigger] a[i]@) == upper_chars(b[i]@),
    ensures
        selected_types(a) == selected_types(b),
        (forall|i: int| 0 <= i < a.len() ==> names_record_type(#[trigger] a[i]@))
            <==> (forall|i: int| 0 <= i < b.len() ==> names_record_type(#[trigger] b[i]@)),
{
    assert forall|n: Seq<char>| selected_types(a).contains(n) <==> selected_types(b).contains(n) by {
        if selected_types(a).contains(n) {
            let i = choose|i: int| 0 <= i < a.len() && n == upper_chars(#[trigger] a[i]@);
            assert(n == upper_chars(b[i]@));
        }
        if selected_types(b).contains(n) {
            let i = choose|i: int| 0 <= i < b.len() && n == upper_chars(#[trigger] b[i]@);
            assert(n == upper_chars(a[i]@));
        }
    }
    assert(selected_types(a) =~= selected_types(b));
    if forall|i: int| 0 <= i < a.len() ==> names_record_type(#[trigger] a[i]@) {
        assert forall|i: int| 0 <= i < b.len() implies names_record_type(#[trigger] b[i]@) by {
            assert(names_record_type(a[i]@));
        }
    }
    if forall|i: int| 0 <= i < b.len() ==> names_record_type(#[trigger] b[i]@) {
        assert forall|i: int| 0 <= i < a.len() implies names_record_type(#[trigger] a[i]@) by {
            assert(names_record_type(b[i]@));
        }
    }
}

impl RecordFilter {
    /// Whether the filter keeps records of the type `record_type`.
    pub fn keeps(&self, record_type: &str) -> (keep: bool)
        ensures
            keep == self@.contains(record_type@),
            forall|n: Seq<char>| #[trigger] self@.contains(n) ==> is_record_type_name(n),
    {
        proof {
            use_type_invariant(self);
            assert forall|n: Seq<char>| #[trigger] self@.contains(n) implies is_record_type_name(n) by {
                let i = choose|i: int| 0 <= i < self.names@.len() && (#[trigger] self.names@[i])@ == n;
            }
        }
        let mut i: usize = 0;
        while i < self.names.len()
            invariant
                i <= self.names@.len(),
                forall|j: int| 0 <= j < i ==> self.names@[j]@ != record_type@,
                forall|n: Seq<char>| #[trigger] self@.contains(n) ==> is_record_type_name(n),
            decreases self.names@.len() - i,
        {
            if str_eq(self.names[i], record_type) {
                return true;
            }
            i = i + 1;
        }
        false
    }

    /// The filter that keeps nothing yet.
    fn empty() -> (f: RecordFilter)
        ensures
            f@ == Set::<Seq<char>>::empty(),
    {
        let f = RecordFilter { names: Vec::new() };
        assert(f@ =~= Set::<Seq<char>>::empty());
        f
    }

    /// Keep `name` too.
    fn insert(&mut self, name: &'static str)
        requires
            is_record_type_name(name@),
        ensures
            final(self)@ == old(self)@.insert(name@),
    {
        if self.keeps(name) {
            assert(old(self)@.insert(name@) =~= old(self)@);
        } else {
            proof {
                use_type_invariant(&*self);
            }
            let ghost before = self.names@;
            let mut names: Vec<&'static str> = Vec::new();
            std::mem::swap(&mut names, &mut self.names);
            names.push(name);
            self.names = names;
            assert forall|i: int, j: int|
                0 <= i < j < self.names@.len() implies #[trigger] self.names@[i]@ != #[trigger] self.names@[j]@ by {
                if j == before.len() {
                    assert(self.names@[i] == before[i]);
                    assert(old(self)@.contains(before[i]@));
                }
            }
            assert forall|n: Seq<char>| #[trigger] self@.contains(n) <==> old(self)@.insert(name@).contains(n) by {
                if old(self)@.contains(n) {
                    let i = choose|i: int| 0 <= i < before.len() && (#[trigger] before[i])@ == n;
                    assert(self.names@[i] == before[i]);
                }
                if self@.contains(n) {
                    let i = choose|i: int| 0 <= i < self.names@.len() && (#[trigger] self.names@[i])@ == n;
                    if i < before.len() {
                        assert(self.names@[i] == before[i]);
                    }
                }
                if n == name@ {
                    assert(self.names@[before.len() as int] == name);
                }
            }
            assert(self@ =~= old(self)@.insert(name@));
        }
    }
}

/// The record type named `name` (upper case), if there is one.
pub fn lookup_record_type(name: &str) -> (found: Option<&'static str>)
    ensures
        found is Some <==> is_record_type_name(name@),
        found matches Some(t) ==> t@ == name@,
{
    let mut i: usize = 0;
    while i < RECORD_TYPE_COUNT
        invariant
            i <= RECORD_TYPE_COUNT,
            forall|j: int| 0 <= j < i ==> record_type_names()[j] != name@,
        decreases RECORD_TYPE_COUNT - i,
    {
        let t = record_type_at(i);
        if str_eq(t, name) {
            proof {
                assert(record_type_names()[i as int] == name@);
            }
            return Some(t);
        }
        i = i + 1;
    }
    proof {
        if is_record_type_name(name@) {
            let j = choose|j: int| 0 <= j < record_type_names().len() && record_type_names()[j] == name@;
            assert(record_type_names()[j] != name@);
        }
    }
    None
}

/// The filter that keeps the record types named by `types`, in any case. A name that is
/// no record type is an error that carries the name in upper case; the first such name
/// is reported.
pub fn record_filter(types: &[&str]) -> (result: Result<RecordFilter, Error>)
    ensures
        result is Ok <==> forall|i: int| 0 <= i < types@.len() ==> names_record_type(#[trigger] types@[i]@),
        result matches Ok(f) ==> f@ == selected_types(types@),
        result matches Err(e) ==> exists|k: int| #[trigger] first_unknown(types@, k)
            && (e matches Error::UnknownRecordType(t) && t@ == upper_chars(types@[k]@)),
{
    let mut filter = RecordFilter::empty();
    let mut i: usize = 0;
    while i < types.len()
        invariant
            i <= types@.len(),
            forall|j: int| 0 <= j < i ==> names_record_type(#[trigger] types@[j]@),
            filter@ == selected_types(types@.take(i as int)),
        decreases types@.len() - i,
    {
        let upper = to_ascii_uppercase(types[i]);
        match lookup_record_type(upper.as_str()) {
            Some(t) => {
                filter.insert(t);
                proof {
                    let prev = selected_types(types@.take(i as int));
                    let next = selected_types(types@.take(i + 1));
                    assert forall|n: Seq<char>| #[trigger] next.contains(n) <==> prev.insert(t@).contains(n) by {
                        if next.contains(n) {
                            let j = choose|j: int| 0 <= j < i + 1 && n == upper_chars(#[trigger] types@.take(i + 1)[j]@);
                            if j < i {
                                assert(types@.take(i + 1)[j] == types@.take(i as int)[j]);
                            }
                        }
                        if prev.contains(n) {
                            let j = choose|j: int| 0 <= j < i && n == upper_chars(#[trigger] types@.take(i as int)[j]@);
                            assert(types@.take(i + 1)[j] == types@.take(i as int)[j]);
                        }
                        if n == t@ {
                            assert(types@.take(i + 1)[i as int] == types@[i as int]);
                        }
                    }
                    assert(next =~= prev.insert(t@));
                }
            },
            None => {
                proof {
                    assert(first_unknown(types@, i as int));
                }
                return Err(Error::UnknownRecordType(upper));
            },
        }
        i = i + 1;
    }
    assert(types@.take(i as int) =~= types@);
    Ok(filter)
}

} // verus!

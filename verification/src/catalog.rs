//! The font catalog: the family names that a font source reports, each once,
//! in ascending order.

use crate::order::{
    compare_names, lemma_name_before_asymmetric, lemma_name_before_transitive, name_before,
    NameOrder,
};
use vstd::prelude::*;

verus! {

/// A catalog lists names in strictly ascending order. A name therefore never
/// occurs twice.
pub open spec fn is_catalog(names: Seq<Seq<char>>) -> bool {
    forall|i: int, j: int|
        #![trigger names[i], names[j]]
        0 <= i < j < names.len() ==> name_before(names[i], names[j])
}

/// Both lists hold the same names, however often and in whatever order.
pub open spec fn same_names(a: Seq<Seq<char>>, b: Seq<Seq<char>>) -> bool {
    forall|n: Seq<char>| a.contains(n) <==> b.contains(n)
}

/// `catalog` is the catalog of the names in `reported`.
pub open spec fn is_catalog_of(catalog: Seq<Seq<char>>, reported: Seq<Seq<char>>) -> bool {
    is_catalog(catalog) && same_names(catalog, reported)
}

/// `a` is `b` or comes before it.
pub open spec fn name_at_most(a: Seq<char>, b: Seq<char>) -> bool {
    a == b || name_before(a, b)
}

/// No name occurs twice in a catalog.
pub proof fn lemma_catalog_no_duplicates(names: Seq<Seq<char>>)
    requires
        is_catalog(names),
    ensures
        names.no_duplicates(),
{
    assert forall|i: int, j: int|
        0 <= i < names.len() && 0 <= j < names.len() && i != j implies names[i] != names[j] by {
        if i < j {
            lemma_name_before_asymmetric(names[i], names[j]);
        } else {
            lemma_name_before_asymmetric(names[j], names[i]);
        }
    }
}

/// Each name of a catalog is at most the one that follows it, and a list of
/// which that holds and in which no name occurs twice is a catalog.
pub proof fn lemma_catalog_adjacent(names: Seq<Seq<char>>)
    ensures
        is_catalog(names) <==> names.no_duplicates() && forall|i: int|
            0 <= i < names.len() - 1 ==> name_at_most(#[trigger] names[i], names[i + 1]),
{
    if is_catalog(names) {
        lemma_catalog_no_duplicates(names);
        assert forall|i: int| 0 <= i < names.len() - 1 implies name_at_most(
            #[trigger] names[i],
            names[i + 1],
        ) by {
            assert(name_before(names[i], names[i + 1]));
        }
    }
    if names.no_duplicates() && forall|i: int|
        0 <= i < names.len() - 1 ==> name_at_most(#[trigger] names[i], names[i + 1]) {
        assert forall|i: int, j: int| 0 <= i < j < names.len() implies name_before(
            names[i],
            names[j],
        ) by {
            lemma_ascending_run(names, i, j);
        }
    }
}

/// In a list without repeats whose neighbours ascend, an earlier name comes
/// before every later one.
proof fn lemma_ascending_run(names: Seq<Seq<char>>, i: int, j: int)
    requires
        0 <= i < j < names.len(),
        names.no_duplicates(),
        forall|k: int| 0 <= k < names.len() - 1 ==> name_at_most(#[trigger] names[k], names[k + 1]),
    ensures
        name_before(names[i], names[j]),
    decreases j - i,
{
    assert(name_at_most(names[j - 1], names[j - 1 + 1]));
    if i < j - 1 {
        lemma_ascending_run(names, i, j - 1);
        if names[j - 1] != names[j] {
            lemma_name_before_transitive(names[i], names[j - 1], names[j]);
        }
    }
}

/// The first names of two catalogs that hold the same names are equal.
proof fn lemma_catalog_same_head(a: Seq<Seq<char>>, b: Seq<Seq<char>>)
    requires
        is_catalog(a),
        is_catalog(b),
        same_names(a, b),
        a.len() > 0,
    ensures
        b.len() > 0,
        a[0] == b[0],
{
    assert(a.contains(a[0]));
    assert(b.contains(a[0]));
    let j = choose|j: int| 0 <= j < b.len() && b[j] == a[0];
    assert(b.contains(b[0]));
    assert(a.contains(b[0]));
    let i = choose|i: int| 0 <= i < a.len() && a[i] == b[0];
    if j > 0 {
        assert(name_before(b[0], b[j]));
        if i > 0 {
            assert(name_before(a[0], a[i]));
        }
        lemma_name_before_asymmetric(b[0], a[0]);
    }
}

/// The names after the first of two catalogs that hold the same names are
/// again two catalogs that hold the same names.
proof fn lemma_catalog_same_tail(a: Seq<Seq<char>>, b: Seq<Seq<char>>)
    requires
        is_catalog(a),
        is_catalog(b),
        same_names(a, b),
        a.len() > 0,
        b.len() > 0,
        a[0] == b[0],
    ensures
        is_catalog(a.drop_first()),
        is_catalog(b.drop_first()),
        same_names(a.drop_first(), b.drop_first()),
{
    let ta = a.drop_first();
    let tb = b.drop_first();
    assert forall|i: int, j: int| 0 <= i < j < ta.len() implies name_before(ta[i], ta[j]) by {
        assert(name_before(a[i + 1], a[j + 1]));
    }
    assert forall|i: int, j: int| 0 <= i < j < tb.len() implies name_before(tb[i], tb[j]) by {
        assert(name_before(b[i + 1], b[j + 1]));
    }
    assert forall|n: Seq<char>| ta.contains(n) implies tb.contains(n) by {
        lemma_tail_member(a, b, n);
    }
    assert forall|n: Seq<char>| tb.contains(n) implies ta.contains(n) by {
        lemma_tail_member(b, a, n);
    }
}

/// A name after the first of catalog `a` also stands after the first of a
/// catalog `b` that holds the same names and begins alike.
proof fn lemma_tail_member(a: Seq<Seq<char>>, b: Seq<Seq<char>>, n: Seq<char>)
    requires
        is_catalog(a),
        same_names(a, b),
        a.len() > 0,
        b.len() > 0,
        a[0] == b[0],
        a.drop_first().contains(n),
    ensures
        b.drop_first().contains(n),
{
    let ta = a.drop_first();
    let i = choose|i: int| 0 <= i < ta.len() && ta[i] == n;
    assert(a[i + 1] == n);
    assert(a.contains(n));
    assert(b.contains(n));
    let j = choose|j: int| 0 <= j < b.len() && b[j] == n;
    assert(name_before(a[0], a[i + 1]));
    lemma_name_before_asymmetric(a[0], n);
    assert(j > 0);
    assert(b.drop_first()[j - 1] == n);
}

/// A set of names has one catalog only: two catalogs that hold the same names
/// are equal, name for name.
pub proof fn lemma_catalog_unique(a: Seq<Seq<char>>, b: Seq<Seq<char>>)
    requires
        is_catalog(a),
        is_catalog(b),
        same_names(a, b),
    ensures
        a == b,
    decreases a.len(),
{
    if a.len() == 0 {
        if b.len() > 0 {
            assert(b.contains(b[0]));
            assert(a.contains(b[0]));
        }
        assert(a =~= b);
    } else {
        lemma_catalog_same_head(a, b);
        lemma_catalog_same_tail(a, b);
        lemma_catalog_unique(a.drop_first(), b.drop_first());
        assert(a =~= seq![a[0]] + a.drop_first());
        assert(b =~= seq![b[0]] + b.drop_first());
    }
}

/// What a font source reports decides the catalog, and only through the set
/// of names in it: two reports that hold the same names, in any order and with
/// any repeats, have the same catalog.
pub proof fn lemma_catalog_determined(
    first: Seq<Seq<char>>,
    first_reported: Seq<Seq<char>>,
    second: Seq<Seq<char>>,
    second_reported: Seq<Seq<char>>,
)
    requires
        is_catalog_of(first, first_reported),
        is_catalog_of(second, second_reported),
        same_names(first_reported, second_reported),
    ensures
        first == second,
{
    lemma_catalog_unique(first, second);
}

/// Cataloguing a catalog changes nothing.
pub proof fn lemma_catalog_idempotent(catalog: Seq<Seq<char>>, again: Seq<Seq<char>>)
    requires
        is_catalog(catalog),
        is_catalog_of(again, catalog),
    ensures
        again == catalog,
{
    lemma_catalog_unique(again, catalog);
}

/// The font families of a host: their names, each once, in ascending order.
/// Every value of this type is a catalog; no operation can make it otherwise.
#[derive(Debug)]
pub struct FontCatalog {
    names: Vec<String>,
}

impl View for FontCatalog {
    type V = Seq<Seq<char>>;

    /// The names of the catalog, in the order in which it lists them.
    closed spec fn view(&self) -> Seq<Seq<char>> {
        self.names.deep_view()
    }
}

impl FontCatalog {
    /// What holds of every catalog: its names ascend strictly.
    #[verifier::type_invariant]
    spec fn ordered(&self) -> bool {
        is_catalog(self.names.deep_view())
    }

    /// The catalog that lists nothing.
    pub fn new() -> (catalog: Self)
        ensures
            catalog@ == Seq::<Seq<char>>::empty(),
            is_catalog(catalog@),
    {
        let catalog = FontCatalog { names: Vec::new() };
        assert(catalog@ =~= Seq::<Seq<char>>::empty());
        catalog
    }

    /// Looks `family` up by halving. `Ok` holds the place where the name
    /// stands. `Err` holds the place where it would have to be put: every name
    /// before that place comes before it, every name from there on after it.
    pub fn find(&self, family: &str) -> (found: Result<usize, usize>)
        ensures
            found is Ok <==> self@.contains(family@),
            match found {
                Ok(at) => at < self@.len() && self@[at as int] == family@,
                Err(at) => {
                    &&& at <= self@.len()
                    &&& forall|j: int| 0 <= j < at ==> name_before(self@[j], family@)
                    &&& forall|j: int| at <= j < self@.len() ==> name_before(family@, self@[j])
                },
            },
    {
        proof {
            use_type_invariant(self);
        }
        let ghost names = self@;
        let mut low: usize = 0;
        let mut high: usize = self.names.len();
        while low < high
            invariant
                names == self.names.deep_view(),
                is_catalog(names),
                low <= high <= names.len(),
                forall|j: int| 0 <= j < low ==> name_before(names[j], family@),
                forall|j: int| high <= j < names.len() ==> name_before(family@, names[j]),
            decreases high - low,
        {
            let middle = low + (high - low) / 2;
            match compare_names(self.names[middle].as_str(), family) {
                NameOrder::Same => {
                    assert(names[middle as int] == family@);
                    return Ok(middle);
                },
                NameOrder::Before => {
                    assert forall|j: int| 0 <= j < middle + 1 implies name_before(
                        names[j],
                        family@,
                    ) by {
                        if j < middle {
                            assert(name_before(names[j], names[middle as int]));
                            lemma_name_before_transitive(names[j], names[middle as int], family@);
                        }
                    }
                    low = middle + 1;
                },
                NameOrder::After => {
                    assert forall|j: int| middle <= j < names.len() implies name_before(
                        family@,
                        names[j],
                    ) by {
                        if middle < j {
                            assert(name_before(names[middle as int], names[j]));
                            lemma_name_before_transitive(family@, names[middle as int], names[j]);
                        }
                    }
                    high = middle;
                },
            }
        }
        proof {
            if names.contains(family@) {
                let k = choose|k: int| 0 <= k < names.len() && names[k] == family@;
                if k < low {
                    lemma_name_before_asymmetric(names[k], family@);
                } else {
                    lemma_name_before_asymmetric(family@, names[k]);
                }
            }
        }
        Err(low)
    }

    /// Puts `family` at the place that keeps the order. A name that the
    /// catalog already holds is dropped and the catalog stays as it was.
    /// Returns whether the name was new.
    pub fn insert(&mut self, family: String) -> (added: bool)
        ensures
            is_catalog(final(self)@),
            added <==> !old(self)@.contains(family@),
            !added ==> final(self)@ == old(self)@,
            added ==> exists|at: int|
                0 <= at <= old(self)@.len() && final(self)@ == old(self)@.insert(at, family@),
            forall|n: Seq<char>| final(self)@.contains(n) <==> old(self)@.contains(n) || n == family@,
    {
        proof {
            use_type_invariant(&*self);
        }
        let ghost before = self@;
        match self.find(family.as_str()) {
            Ok(_) => false,
            Err(at) => {
                let mut names: Vec<String> = Vec::new();
                std::mem::swap(&mut names, &mut self.names);
                names.insert(at, family);
                proof {
                    lemma_insert_keeps_catalog(before, at as int, family@);
                    assert(names.deep_view() =~= before.insert(at as int, family@));
                }
                self.names = names;
                true
            },
        }
    }

    /// Builds the catalog of the names that a font source reported: each name
    /// once, in ascending order, whatever the order and the repeats of the
    /// report.
    pub fn from_families(families: Vec<String>) -> (catalog: Self)
        ensures
            is_catalog_of(catalog@, families.deep_view()),
            catalog@.no_duplicates(),
            catalog@.len() <= families.len(),
    {
        let ghost reported = families.deep_view();
        let mut pending = families;
        let mut catalog = FontCatalog::new();
        while pending.len() > 0
            invariant
                is_catalog(catalog@),
                catalog@.len() + pending.len() <= reported.len(),
                forall|n: Seq<char>|
                    reported.contains(n) <==> catalog@.contains(n) || pending.deep_view().contains(
                        n,
                    ),
            decreases pending.len(),
        {
            let ghost waiting = pending.deep_view();
            let family = pending.pop().unwrap();
            proof {
                assert(pending.deep_view() =~= waiting.drop_last());
                lemma_without_last(waiting, pending.deep_view(), family@);
            }
            catalog.insert(family);
        }
        proof {
            lemma_catalog_no_duplicates(catalog@);
        }
        catalog
    }

    /// Hands the names out as the catalog lists them.
    pub fn into_names(self) -> (names: Vec<String>)
        ensures
            names.deep_view() == self@,
            is_catalog(names.deep_view()),
            names.deep_view().no_duplicates(),
    {
        proof {
            use_type_invariant(&self);
            lemma_catalog_no_duplicates(self@);
        }
        self.names
    }
}

/// A name put into a catalog between the names that come before it and those
/// that come after it leaves a catalog, which holds the old names and the new.
proof fn lemma_insert_keeps_catalog(before: Seq<Seq<char>>, at: int, name: Seq<char>)
    requires
        is_catalog(before),
        0 <= at <= before.len(),
        forall|j: int| 0 <= j < at ==> name_before(before[j], name),
        forall|j: int| at <= j < before.len() ==> name_before(name, before[j]),
    ensures
        is_catalog(before.insert(at, name)),
        forall|n: Seq<char>| before.insert(at, name).contains(n) <==> before.contains(n) || n == name,
{
    let after = before.insert(at, name);
    assert forall|i: int, j: int| 0 <= i < j < after.len() implies name_before(
        after[i],
        after[j],
    ) by {
        if j < at {
            assert(name_before(before[i], before[j]));
        } else if j == at {
            assert(name_before(before[i], name));
        } else if i < at {
            assert(name_before(before[i], before[j - 1]));
        } else if i == at {
            assert(name_before(name, before[j - 1]));
        } else {
            assert(name_before(before[i - 1], before[j - 1]));
        }
    }
    assert forall|n: Seq<char>| after.contains(n) implies before.contains(n) || n == name by {
        let k = choose|k: int| 0 <= k < after.len() && after[k] == n;
        if k < at {
            assert(before[k] == n);
        } else if k > at {
            assert(before[k - 1] == n);
        }
    }
    assert forall|n: Seq<char>| before.contains(n) || n == name implies after.contains(n) by {
        if n == name {
            assert(after[at] == n);
        } else {
            let k = choose|k: int| 0 <= k < before.len() && before[k] == n;
            if k < at {
                assert(after[k] == n);
            } else {
                assert(after[k + 1] == n);
            }
        }
    }
}

/// A list holds the names of the list without its last name, and that name.
proof fn lemma_without_last(whole: Seq<Seq<char>>, rest: Seq<Seq<char>>, last: Seq<char>)
    requires
        whole.len() > 0,
        rest == whole.drop_last(),
        last == whole.last(),
    ensures
        forall|n: Seq<char>| whole.contains(n) <==> rest.contains(n) || n == last,
{
    assert forall|n: Seq<char>| whole.contains(n) implies rest.contains(n) || n == last by {
        let k = choose|k: int| 0 <= k < whole.len() && whole[k] == n;
        if k < whole.len() - 1 {
            assert(rest[k] == n);
        }
    }
    assert forall|n: Seq<char>| rest.contains(n) || n == last implies whole.contains(n) by {
        if rest.contains(n) {
            let k = choose|k: int| 0 <= k < rest.len() && rest[k] == n;
            assert(whole[k] == n);
        } else {
            assert(whole[whole.len() - 1] == n);
        }
    }
}

} // verus!

//! Import records: one per import statement of a file, together with the
//! outcome of resolving its specifier.

use vstd::prelude::*;
use crate::strings::spec_is_relative;

verus! {

/// One import occurrence: the specifier as written, and the root-relative
/// path it resolved to, when it is relative and resolution succeeded.
pub struct ImportRecord {
    pub specifier: String,
    pub target: Option<String>,
}

/// All import records of one file.
pub struct FileImports {
    pub path: String,
    pub records: Vec<ImportRecord>,
}

/// The text of one file, keyed by its root-relative path.
pub struct FileText {
    pub path: String,
    pub text: String,
}

/// The records of the first table entry for `p`; empty when there is none.
pub open spec fn spec_lookup(t: Seq<FileImports>, p: Seq<char>) -> Seq<ImportRecord>
    decreases t.len(),
{
    if t.len() == 0 {
        Seq::empty()
    } else if t[0].path@ == p {
        t[0].records@
    } else {
        spec_lookup(t.drop_first(), p)
    }
}

proof fn lemma_lookup_skip(t: Seq<FileImports>, p: Seq<char>, i: int)
    requires
        0 <= i <= t.len(),
        forall|j: int| 0 <= j < i ==> (#[trigger] t[j]).path@ != p,
    ensures
        spec_lookup(t, p) == spec_lookup(t.skip(i), p),
    decreases i,
{
    if i > 0 {
        assert(t.skip(i - 1).drop_first() =~= t.skip(i));
        lemma_lookup_skip(t, p, i - 1);
        assert(t.skip(i - 1)[0] == t[i - 1]);
    } else {
        assert(t.skip(0) =~= t);
    }
}

/// Find the records recorded for `p`, if any entry holds them.
pub fn lookup_records(t: &Vec<FileImports>, p: &String) -> (r: Option<usize>)
    ensures
        match r {
            Some(i) => i < t@.len() && t@[i as int].path@ == p@ && t@[i as int].records@
                == spec_lookup(t@, p@),
            None => spec_lookup(t@, p@) == Seq::<ImportRecord>::empty(),
        },
{
    let mut i: usize = 0;
    while i < t.len()
        invariant
            i <= t@.len(),
            forall|j: int| 0 <= j < i ==> (#[trigger] t@[j]).path@ != p@,
        decreases t@.len() - i,
    {
        if t[i].path.eq(p) {
            proof {
                lemma_lookup_skip(t@, p@, i as int);
                assert(t@.skip(i as int)[0] == t@[i as int]);
            }
            return Some(i);
        }
        i = i + 1;
    }
    proof {
        lemma_lookup_skip(t@, p@, t@.len() as int);
        assert(t@.skip(t@.len() as int) =~= Seq::<FileImports>::empty());
    }
    None
}

/// Some record of `rs` is a relative import resolved to `q`.
pub open spec fn links_to(rs: Seq<ImportRecord>, q: Seq<char>) -> bool {
    exists|j: int|
        0 <= j < rs.len() && spec_is_relative((#[trigger] rs[j]).specifier@) && rs[j].target
            is Some && rs[j].target->0@ == q
}

} // verus!

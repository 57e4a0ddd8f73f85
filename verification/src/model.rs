//! The record types the store persists: a crate with its cumulative
//! version list, one observed crate-version event, and the daily aggregate
//! run counters.
use vstd::prelude::*;
use crate::strutil::lex_lt;
use crate::strutil::push_char;

verus! {

/// The kind of change observed for one crate version in the package index.
#[derive(Clone, Copy, PartialEq, Eq, Structural, Debug)]
pub enum ChangeKind {
    Added,
    Yanked,
}

/// The word the given change kind is shown as.
pub open spec fn kind_text(k: ChangeKind) -> Seq<char> {
    match k {
        ChangeKind::Added => "added"@,
        ChangeKind::Yanked => "yanked"@,
    }
}

impl ChangeKind {
    /// The word this change kind is shown as.
    pub fn as_str(&self) -> (r: &'static str)
        ensures
            r@ == kind_text(*self),
    {
        match self {
            ChangeKind::Added => "added",
            ChangeKind::Yanked => "yanked",
        }
    }
}

/// One version event as received from the index producer: the crate's
/// name, the version identifier, and what happened to it.
#[derive(Clone, PartialEq, Eq, Debug)]
pub struct CrateVersion {
    pub name: String,
    pub version: String,
    pub kind: ChangeKind,
}

/// The mathematical value of a [`CrateVersion`].
#[verifier::ext_equal]
pub struct CrateVersionView {
    pub name: Seq<char>,
    pub version: Seq<char>,
    pub kind: ChangeKind,
}

impl View for CrateVersion {
    type V = CrateVersionView;

    open spec fn view(&self) -> CrateVersionView {
        CrateVersionView { name: self.name@, version: self.version@, kind: self.kind }
    }
}

/// A crate record: the deduplicated version list, kept sorted ascending
/// under the canonical lexicographic order.
#[derive(Clone, PartialEq, Eq, Debug)]
pub struct Crate {
    pub versions: Vec<String>,
}

/// The mathematical value of a [`Crate`].
#[verifier::ext_equal]
pub struct CrateView {
    pub versions: Seq<Seq<char>>,
}

/// The character sequences a list of strings holds.
pub open spec fn strs_view(vs: Seq<String>) -> Seq<Seq<char>> {
    Seq::new(vs.len(), |i: int| vs[i]@)
}

impl View for Crate {
    type V = CrateView;

    open spec fn view(&self) -> CrateView {
        CrateView { versions: strs_view(self.versions@) }
    }
}

/// A version list is well formed when it is strictly sorted: ascending
/// under the canonical order, hence also free of duplicates.
pub open spec fn sorted_unique(vs: Seq<Seq<char>>) -> bool {
    forall|i: int, j: int| 0 <= i < j < vs.len() ==> lex_lt(#[trigger] vs[i], #[trigger] vs[j])
}

impl Default for Crate {
    /// An empty crate record, the decoding substrate for a missing value.
    fn default() -> (r: Crate)
        ensures
            r@.versions.len() == 0,
    {
        Crate { versions: Vec::new() }
    }
}

/// Daily aggregate counters describing one day of processing activity.
#[derive(Clone, Copy, PartialEq, Eq, Structural, Debug)]
pub struct Context {
    /// How many events created a crate record that did not exist before.
    pub new_crates: u64,
    /// How many version records were stored.
    pub new_crate_versions: u64,
    /// How many operations failed.
    pub errors: u64,
}

impl View for Context {
    type V = Context;

    open spec fn view(&self) -> Context {
        *self
    }
}

impl Default for Context {
    /// The neutral element of [`Context::merged`]: all counters zero.
    fn default() -> (r: Context)
        ensures
            r == (Context { new_crates: 0, new_crate_versions: 0, errors: 0 }),
    {
        Context { new_crates: 0, new_crate_versions: 0, errors: 0 }
    }
}

/// Addition that stops at the largest representable value instead of
/// wrapping; counters never run backwards.
pub open spec fn sat_add(a: u64, b: u64) -> u64 {
    if a + b > u64::MAX {
        u64::MAX
    } else {
        (a + b) as u64
    }
}

/// Saturating addition on counters.
pub fn sat_add_exec(a: u64, b: u64) -> (r: u64)
    ensures
        r == sat_add(a, b),
{
    if a > u64::MAX - b {
        u64::MAX
    } else {
        a + b
    }
}

impl Context {
    /// The field-wise sum of two partial-day records.  Addition is
    /// associative and commutative, so repeated or out-of-order writes
    /// within a day converge to the same total.
    pub fn merged(&self, other: &Context) -> (r: Context)
        ensures
            r.new_crates == sat_add(self.new_crates, other.new_crates),
            r.new_crate_versions == sat_add(self.new_crate_versions, other.new_crate_versions),
            r.errors == sat_add(self.errors, other.errors),
    {
        Context {
            new_crates: sat_add_exec(self.new_crates, other.new_crates),
            new_crate_versions: sat_add_exec(self.new_crate_versions, other.new_crate_versions),
            errors: sat_add_exec(self.errors, other.errors),
        }
    }
}

/// The one-line human rendering of an event: name, version and kind,
/// separated by single spaces.
pub open spec fn human_line_spec(v: CrateVersionView) -> Seq<char> {
    v.name + seq![' '] + v.version + seq![' '] + kind_text(v.kind)
}

/// Renders an event the way the changes listing prints it.
pub fn human_line(v: &CrateVersion) -> (r: String)
    ensures
        r@ == human_line_spec(v@),
{
    let mut r = v.name.clone();
    push_char(&mut r, ' ');
    r.append(v.version.as_str());
    push_char(&mut r, ' ');
    r.append(v.kind.as_str());
    proof {
        assert(r@ =~= human_line_spec(v@));
    }
    r
}

} // verus!

use vstd::prelude::*;

verus! {

/// An author or committer: who, and when in which time zone.
#[derive(Debug, Clone)]
pub struct Signature {
    pub name: String,
    pub email: String,
    pub timestamp: i64,
    /// Offset from UTC, in minutes, positive east of UTC (e.g. -0500 -> -300).
    pub tz_offset_minutes: i32,
}

/// One commit as git's raw log format describes it.
#[derive(Debug, Clone)]
pub struct Commit {
    pub sha: String,
    pub tree: String,
    pub parents: Vec<String>,
    pub author: Signature,
    pub committer: Signature,
    /// Message lines with the raw format's 4-space indent already stripped.
    pub message: Vec<String>,
}

/// The mathematical content of a `Signature`.
pub struct SignatureView {
    pub name: Seq<char>,
    pub email: Seq<char>,
    pub timestamp: i64,
    pub tz_offset_minutes: i32,
}

/// The mathematical content of a `Commit`.
pub struct CommitView {
    pub sha: Seq<char>,
    pub tree: Seq<char>,
    pub parents: Seq<Seq<char>>,
    pub author: SignatureView,
    pub committer: SignatureView,
    pub message: Seq<Seq<char>>,
}

/// The character sequences of a list of strings.
pub open spec fn strings_view(v: Seq<String>) -> Seq<Seq<char>> {
    v.map_values(|s: String| s@)
}

impl View for Signature {
    type V = SignatureView;

    open spec fn view(&self) -> SignatureView {
        SignatureView {
            name: self.name@,
            email: self.email@,
            timestamp: self.timestamp,
            tz_offset_minutes: self.tz_offset_minutes,
        }
    }
}

impl View for Commit {
    type V = CommitView;

    open spec fn view(&self) -> CommitView {
        CommitView {
            sha: self.sha@,
            tree: self.tree@,
            parents: strings_view(self.parents@),
            author: self.author@,
            committer: self.committer@,
            message: strings_view(self.message@),
        }
    }
}

/// Appending a string appends its characters to the list's view.
pub proof fn lemma_strings_view_push(v: Seq<String>, s: String)
    ensures
        strings_view(v.push(s)) == strings_view(v).push(s@),
{
    assert(strings_view(v.push(s)) =~= strings_view(v).push(s@));
}

} // verus!

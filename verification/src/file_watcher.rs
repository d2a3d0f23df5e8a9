//! The folder watcher: which new files are taken up, and when they are complete.

use vstd::hash_set::StringHashSet;
use vstd::prelude::*;
use crate::text::{chars_of, eq_ignoring_case, same_ignoring_case, text_view};

verus! {

/// Whether a file extension is `ncm`, in any case.
pub open spec fn is_ncm_ending(extension: Option<Seq<char>>) -> bool {
    match extension {
        Some(ext) => same_ignoring_case(ext, "ncm"@),
        None => false,
    }
}

/// Whether a file extension is `ncm`, in any case.
pub fn is_ncm(extension: Option<&str>) -> (yes: bool)
    ensures
        yes == is_ncm_ending(text_view(extension)),
{
    match extension {
        Some(ext) => eq_ignoring_case(&chars_of(ext), &chars_of("ncm")),
        None => false,
    }
}

/// The text in lower case, as `str::to_lowercase` gives it.
pub uninterp spec fn lowercase(text: Seq<char>) -> Seq<char>;

/// `str::to_lowercase`. The contract names the result, which depends on the text
/// alone, and claims nothing else of it.
#[verifier::external_body]
fn to_lowercase(text: &str) -> (lower: String)
    ensures
        lower@ == lowercase(text@),
{
    text.to_lowercase()
}

/// The files that were seen since monitoring started.
pub struct Seen {
    known: StringHashSet,
}

impl View for Seen {
    type V = Set<Seq<char>>;

    closed spec fn view(&self) -> Set<Seq<char>> {
        self.known@
    }
}

impl Seen {
    /// No file was seen.
    pub fn new() -> (s: Seen)
        ensures
            s@ == Set::<Seq<char>>::empty(),
    {
        Seen { known: StringHashSet::new() }
    }

    /// Notes a file by its key, and says whether it is new.
    pub fn note(&mut self, key: String) -> (fresh: bool)
        ensures
            fresh == !old(self)@.contains(key@),
            final(self)@ == old(self)@.insert(key@),
    {
        self.known.insert(key)
    }

    /// Decides whether a file that was just created is looked at: it has the
    /// right extension, and its path was not seen before, whatever the case of
    /// its letters. A path with the right extension counts as seen from then on.
    pub fn is_new_download(&mut self, extension: Option<&str>, path: &str) -> (yes: bool)
        ensures
            yes == (is_ncm_ending(text_view(extension)) && !old(self)@.contains(lowercase(path@))),
            final(self)@ == if is_ncm_ending(text_view(extension)) {
                old(self)@.insert(lowercase(path@))
            } else {
                old(self)@
            },
    {
        if !is_ncm(extension) {
            return false;
        }
        self.note(to_lowercase(path))
    }
}

/// The set of keys after a run of files was noted.
pub open spec fn noted(seen: Set<Seq<char>>, run: Seq<Seq<char>>) -> Set<Seq<char>>
    decreases run.len(),
{
    if run.len() == 0 {
        seen
    } else {
        noted(seen, run.drop_last()).insert(run.last())
    }
}

/// A file is taken up at most once: whatever was noted before and in between, a
/// key that was noted is not new again.
pub proof fn law_a_file_is_new_once(seen: Set<Seq<char>>, key: Seq<char>, between: Seq<Seq<char>>)
    ensures
        noted(seen.insert(key), between).contains(key),
    decreases between.len(),
{
    if between.len() > 0 {
        law_a_file_is_new_once(seen, key, between.drop_last());
    }
}

/// How many looks in a row may find a file that neither grows nor can be taken.
pub const LOOKS: u32 = 20;

/// A file that may still be written.
#[derive(Clone, Copy, Debug, PartialEq, Eq, Structural)]
pub struct StableWait {
    /// How many more looks may pass without growth.
    pub left: u32,
    /// The size at the last look.
    pub last: u64,
}

/// What to do next about a file that may still be written.
#[derive(Clone, Copy, Debug, PartialEq, Eq, Structural)]
pub enum Next {
    /// Give the file up.
    Refuse,
    /// Try to open it for writing.
    TryOpen,
    /// Wait, then look again.
    Sleep,
    /// Take the file.
    Accept,
}

/// What a look at a file found: whether monitoring was stopped, and the size of
/// the file, if it can be told.
#[derive(Clone, Copy, Debug, PartialEq, Eq, Structural)]
pub struct Look {
    pub stopped: bool,
    pub len: Option<u64>,
}

impl StableWait {
    /// The wait before the first look.
    pub open spec fn fresh() -> StableWait {
        StableWait { left: LOOKS, last: 0 }
    }

    /// The wait before the first look.
    pub fn new() -> (w: StableWait)
        ensures
            w == StableWait::fresh(),
    {
        StableWait { left: LOOKS, last: 0 }
    }

    /// Whether the size is the same as at the look before, and not zero.
    pub open spec fn settled(self, len: u64) -> bool {
        len > 0 && len == self.last
    }

    /// What a look leads to. A file whose size has settled is to be opened; one
    /// that still changes is waited for, however long that takes.
    pub open spec fn after_look(self, look: Look) -> Next {
        match look.len {
            Some(len) if !look.stopped => if self.settled(len) {
                Next::TryOpen
            } else if len == self.last && self.left == 0 {
                Next::Refuse
            } else {
                Next::Sleep
            },
            _ => Next::Refuse,
        }
    }

    /// The wait after a look that found the size `len`: the count starts again
    /// where the size changed.
    pub open spec fn waited(self, len: u64) -> StableWait {
        if len == self.last {
            StableWait {
                left: if self.left > 0 {
                    (self.left - 1) as u32
                } else {
                    0
                },
                last: len,
            }
        } else {
            StableWait { left: LOOKS, last: len }
        }
    }

    /// What the outcome of opening the file leads to.
    pub open spec fn after_open(self, ok: bool) -> Next {
        if ok {
            Next::Accept
        } else if self.left == 0 {
            Next::Refuse
        } else {
            Next::Sleep
        }
    }

    /// Takes one look. Where the size has settled, the file is to be opened, and
    /// `opened` told the outcome.
    pub fn look(&mut self, look: Look) -> (next: Next)
        ensures
            next == old(self).after_look(look),
            *final(self) == match next {
                Next::Sleep => old(self).waited(look.len->Some_0),
                _ => *old(self),
            },
    {
        if look.stopped {
            return Next::Refuse;
        }
        match look.len {
            None => Next::Refuse,
            Some(len) => {
                if len != self.last {
                    self.last = len;
                    self.left = LOOKS;
                    return Next::Sleep;
                }
                if len > 0 {
                    return Next::TryOpen;
                }
                if self.left == 0 {
                    return Next::Refuse;
                }
                self.left = self.left - 1;
                Next::Sleep
            },
        }
    }

    /// Takes up the outcome of opening a file whose size has settled.
    pub fn opened(&mut self, ok: bool) -> (next: Next)
        ensures
            next == old(self).after_open(ok),
            *final(self) == match next {
                Next::Sleep => old(self).waited(old(self).last),
                _ => *old(self),
            },
    {
        if ok {
            return Next::Accept;
        }
        if self.left == 0 {
            return Next::Refuse;
        }
        self.left = self.left - 1;
        Next::Sleep
    }
}

/// What becomes of a file, from look `at` on: whether it is taken, or `None` as
/// long as it is waited for. `looks` is what each look finds, and `opens` whether
/// the file could be opened then.
pub open spec fn verdict(
    wait: StableWait,
    looks: Seq<Look>,
    opens: Seq<bool>,
    at: nat,
) -> Option<bool>
    decreases looks.len() - at,
{
    if at >= looks.len() {
        None
    } else {
        let look = looks[at as int];
        let next = match wait.after_look(look) {
            Next::TryOpen => wait.after_open(opens[at as int]),
            other => other,
        };
        match next {
            Next::Accept => Some(true),
            Next::Refuse => Some(false),
            _ => verdict(wait.waited(look.len->Some_0), looks, opens, at + 1),
        }
    }
}

/// At look `k` the file had the same size as at the look before, was not empty,
/// and could be opened.
pub open spec fn settled_at(looks: Seq<Look>, opens: Seq<bool>, k: int) -> bool {
    k > 0 && looks[k].len == looks[k - 1].len && (looks[k].len matches Some(n) && n > 0) && opens[k]
        && !looks[k].stopped
}

/// At look `k` monitoring was stopped, or the size of the file could not be told.
pub open spec fn failed_at(looks: Seq<Look>, k: int) -> bool {
    looks[k].stopped || looks[k].len is None
}

/// The wait that a run of looks led to remembers the size that was seen last.
spec fn remembers(wait: StableWait, looks: Seq<Look>, at: nat) -> bool {
    if at == 0 {
        wait.last == 0
    } else {
        looks[at - 1].len == Some(wait.last)
    }
}

proof fn lemma_taken_file(wait: StableWait, looks: Seq<Look>, opens: Seq<bool>, at: nat)
    requires
        at <= looks.len(),
        remembers(wait, looks, at),
        verdict(wait, looks, opens, at) == Some(true),
    ensures
        exists|k: int|
            at <= k < looks.len() && #[trigger] settled_at(looks, opens, k) && forall|j: int|
                at <= j <= k ==> !#[trigger] failed_at(looks, j),
    decreases looks.len() - at,
{
    let i = at as int;
    let look = looks[i];
    if wait.after_look(look) == Next::TryOpen && opens[i] {
        assert(settled_at(looks, opens, i));
        assert(!failed_at(looks, i));
    } else {
        lemma_taken_file(wait.waited(look.len->Some_0), looks, opens, at + 1);
        let k = choose|k: int|
            at + 1 <= k < looks.len() && #[trigger] settled_at(looks, opens, k) && forall|j: int|
                at + 1 <= j <= k ==> !#[trigger] failed_at(looks, j);
        assert(settled_at(looks, opens, k));
        assert forall|j: int| at <= j <= k implies !#[trigger] failed_at(looks, j) by {}
    }
}

/// A file is taken only once it stopped growing: at two looks in a row it had the
/// same size, was not empty, and could then be opened. Up to then monitoring was
/// not stopped, and every look could tell the size.
pub proof fn law_only_complete_files_are_taken(looks: Seq<Look>, opens: Seq<bool>)
    requires
        verdict(StableWait::fresh(), looks, opens, 0) == Some(true),
    ensures
        exists|k: int|
            0 <= k < looks.len() && #[trigger] settled_at(looks, opens, k) && forall|j: int|
                0 <= j <= k ==> !#[trigger] failed_at(looks, j),
{
    lemma_taken_file(StableWait::fresh(), looks, opens, 0);
}

proof fn lemma_failed_look(wait: StableWait, looks: Seq<Look>, opens: Seq<bool>, at: nat, k: int)
    requires
        at <= k < looks.len(),
        remembers(wait, looks, at),
        failed_at(looks, k),
        forall|j: int| at <= j < k ==> !#[trigger] settled_at(looks, opens, j),
    ensures
        verdict(wait, looks, opens, at) == Some(false),
    decreases k - at,
{
    let i = at as int;
    let look = looks[i];
    if at < k {
        assert(!settled_at(looks, opens, i));
        if !failed_at(looks, i) {
            let next = match wait.after_look(look) {
                Next::TryOpen => wait.after_open(opens[i]),
                other => other,
            };
            assert(next != Next::Accept);
            if next == Next::Sleep {
                lemma_failed_look(wait.waited(look.len->Some_0), looks, opens, at + 1, k);
            }
        }
    }
}

/// A file is given up where monitoring stops or its size cannot be told before
/// the file was complete.
pub proof fn law_a_failed_look_refuses(looks: Seq<Look>, opens: Seq<bool>, k: int)
    requires
        0 <= k < looks.len(),
        failed_at(looks, k),
        forall|j: int| 0 <= j < k ==> !#[trigger] settled_at(looks, opens, j),
    ensures
        verdict(StableWait::fresh(), looks, opens, 0) == Some(false),
{
    lemma_failed_look(StableWait::fresh(), looks, opens, 0, k);
}

proof fn lemma_growing_file(wait: StableWait, looks: Seq<Look>, opens: Seq<bool>, at: nat)
    requires
        at <= looks.len(),
        remembers(wait, looks, at),
        forall|k: int| 0 <= k < looks.len() ==> !#[trigger] failed_at(looks, k),
        forall|k: int| 0 < k < looks.len() ==> (#[trigger] looks[k]).len != looks[k - 1].len,
        looks.len() > 0 ==> looks[0].len != Some(0u64),
    ensures
        verdict(wait, looks, opens, at) is None,
    decreases looks.len() - at,
{
    if at < looks.len() {
        let look = looks[at as int];
        assert(!failed_at(looks, at as int));
        assert(wait.after_look(look) == Next::Sleep);
        lemma_growing_file(wait.waited(look.len->Some_0), looks, opens, at + 1);
    }
}

/// A file that grows from look to look is waited for: it is neither taken nor
/// given up.
pub proof fn law_a_growing_file_is_waited_for(looks: Seq<Look>, opens: Seq<bool>)
    requires
        forall|k: int| 0 <= k < looks.len() ==> !#[trigger] failed_at(looks, k),
        forall|k: int| 0 < k < looks.len() ==> (#[trigger] looks[k]).len != looks[k - 1].len,
        looks.len() > 0 ==> looks[0].len != Some(0u64),
    ensures
        verdict(StableWait::fresh(), looks, opens, 0) is None,
{
    lemma_growing_file(StableWait::fresh(), looks, opens, 0);
}

proof fn lemma_complete_file(wait: StableWait, looks: Seq<Look>, opens: Seq<bool>, at: nat, k: int)
    requires
        at <= k < looks.len(),
        k <= LOOKS,
        wait.left >= LOOKS - at,
        remembers(wait, looks, at),
        settled_at(looks, opens, k),
        forall|j: int| at <= j <= k ==> !#[trigger] failed_at(looks, j),
    ensures
        verdict(wait, looks, opens, at) == Some(true),
    decreases k - at,
{
    let i = at as int;
    let look = looks[i];
    assert(!failed_at(looks, i));
    if at == k {
        assert(wait.after_look(look) == Next::TryOpen);
    } else {
        let next = match wait.after_look(look) {
            Next::TryOpen => wait.after_open(opens[i]),
            other => other,
        };
        assert(next != Next::Refuse);
        if next == Next::Sleep {
            lemma_complete_file(wait.waited(look.len->Some_0), looks, opens, at + 1, k);
        }
    }
}

/// A file that is complete by the time twenty looks have passed is taken, as long
/// as none of the looks failed.
pub proof fn law_complete_files_are_taken(looks: Seq<Look>, opens: Seq<bool>, k: int)
    requires
        0 <= k < looks.len(),
        k <= LOOKS,
        settled_at(looks, opens, k),
        forall|j: int| 0 <= j <= k ==> !#[trigger] failed_at(looks, j),
    ensures
        verdict(StableWait::fresh(), looks, opens, 0) == Some(true),
{
    lemma_complete_file(StableWait::fresh(), looks, opens, 0, k);
}

} // verus!

//! Three-way merging of vaults, as a git merge driver does it: the merge
//! strategy, what becomes of each group, and what becomes of each secret.
use crate::shell::{lowercase, to_lowercase};
use crate::strmap::StrMap;
use crate::text::{bytes_eq, chars_eq, chars_of, trim, trim_chars};
use crate::vault::{Entry, Group, Tag};
use vstd::prelude::*;

verus! {

/// What to do with a secret changed on both sides.
#[derive(Clone, Copy, PartialEq, Eq, Structural, Debug)]
pub enum MergeStrategy {
    /// Keep the current branch's value.
    Ours,
    /// Take the incoming branch's value.
    Theirs,
    /// Stop and report the conflict.
    Fail,
}

/// The strategy a lower-case name stands for.
pub open spec fn strategy_named(lower: Seq<char>) -> Option<MergeStrategy> {
    if lower == seq!['o', 'u', 'r', 's'] {
        Some(MergeStrategy::Ours)
    } else if lower == seq!['t', 'h', 'e', 'i', 'r', 's'] {
        Some(MergeStrategy::Theirs)
    } else if lower == seq!['f', 'a', 'i', 'l'] {
        Some(MergeStrategy::Fail)
    } else {
        None
    }
}

/// The strategy a lower-case name stands for: `ours`, `theirs` or `fail`.
pub fn strategy_from_lowercase(lower: &str) -> (r: Option<MergeStrategy>)
    ensures
        r == strategy_named(lower@),
{
    let c = chars_of(lower);
    let ours: Vec<char> = vec!['o', 'u', 'r', 's'];
    let theirs: Vec<char> = vec!['t', 'h', 'e', 'i', 'r', 's'];
    let fail: Vec<char> = vec!['f', 'a', 'i', 'l'];
    if chars_eq(c.as_slice(), ours.as_slice()) {
        Some(MergeStrategy::Ours)
    } else if chars_eq(c.as_slice(), theirs.as_slice()) {
        Some(MergeStrategy::Theirs)
    } else if chars_eq(c.as_slice(), fail.as_slice()) {
        Some(MergeStrategy::Fail)
    } else {
        None
    }
}

/// A strategy named in text (as git config gives it): trimmed, compared
/// without case.
pub fn parse_strategy_string(val: &str) -> (r: Option<MergeStrategy>)
    ensures
        r == strategy_named(lowercase(trim(val@))),
{
    let c = chars_of(val);
    let t = trim_chars(c.as_slice());
    let ts = crate::text::string_from_chars(t.as_slice());
    let lower = to_lowercase(ts.as_str());
    strategy_from_lowercase(lower.as_str())
}

/// The strategy in force: the one given on the command line, unless that
/// is `fail`; then the one git config names (`envseal.merge.strategy`,
/// whose value the caller read), where it names one; else `fail`.
pub open spec fn strategy_in_force(cli: MergeStrategy, configured: Option<Option<MergeStrategy>>) -> MergeStrategy {
    if cli != MergeStrategy::Fail {
        cli
    } else {
        match configured {
            Some(Some(s)) => s,
            _ => MergeStrategy::Fail,
        }
    }
}

/// A strategy given on the command line wins unless it is `fail`; then a
/// strategy named in the configuration applies; with neither, conflicts
/// fail the merge. The names are exactly `ours`, `theirs` and `fail`.
pub proof fn lemma_strategy_precedence(cli: MergeStrategy, configured: Option<Option<MergeStrategy>>)
    ensures
        cli != MergeStrategy::Fail ==> strategy_in_force(cli, configured) == cli,
        forall|s: MergeStrategy|
            cli == MergeStrategy::Fail && configured == Some(Some(s)) ==> #[trigger] strategy_in_force(
                cli,
                Some(Some(s)),
            ) == s,
        cli == MergeStrategy::Fail && !(configured matches Some(Some(_))) ==> strategy_in_force(
            cli,
            configured,
        ) == MergeStrategy::Fail,
        strategy_named(seq!['o', 'u', 'r', 's']) == Some(MergeStrategy::Ours),
        strategy_named(seq!['t', 'h', 'e', 'i', 'r', 's']) == Some(MergeStrategy::Theirs),
        strategy_named(seq!['f', 'a', 'i', 'l']) == Some(MergeStrategy::Fail),
{
}

/// The strategy in force, given what `git config envseal.merge.strategy`
/// printed (none where it failed).
pub fn resolve_strategy(cli_strategy: MergeStrategy, config_output: Option<&str>) -> (r: MergeStrategy)
    ensures
        r == strategy_in_force(
            cli_strategy,
            match config_output {
                Some(o) => Some(strategy_named(lowercase(trim(o@)))),
                None => None,
            },
        ),
{
    if cli_strategy != MergeStrategy::Fail {
        return cli_strategy;
    }
    match config_output {
        None => MergeStrategy::Fail,
        Some(o) => match parse_strategy_string(o) {
            Some(s) => s,
            None => MergeStrategy::Fail,
        },
    }
}

/// What becomes of one secret, from its value in the common ancestor, on
/// the current branch and on the incoming branch (none where absent).
pub enum Resolution {
    /// The secret ends with this value, or is removed (`None`).
    Value(Option<String>),
    /// Both branches changed it differently and the strategy is `fail`.
    Conflict,
}

/// The three-way rule: a value both branches agree on stays; a side that
/// did not change yields to the other; otherwise the strategy decides.
pub open spec fn resolution(
    base: Option<Seq<char>>,
    ours: Option<Seq<char>>,
    theirs: Option<Seq<char>>,
    strategy: MergeStrategy,
) -> Option<Option<Seq<char>>> {
    if ours == theirs {
        Some(ours)
    } else if theirs is Some && base == ours {
        Some(theirs)
    } else if theirs is None && base == ours {
        Some(None)
    } else if ours is Some && base == theirs {
        Some(ours)
    } else if ours is None && base == theirs {
        Some(None)
    } else {
        match strategy {
            MergeStrategy::Ours => Some(ours),
            MergeStrategy::Theirs => Some(theirs),
            MergeStrategy::Fail => None,
        }
    }
}

/// A value a resolution keeps is the current or the incoming branch's.
pub proof fn lemma_resolution_keeps_side(
    base: Option<Seq<char>>,
    ours: Option<Seq<char>>,
    theirs: Option<Seq<char>>,
    strategy: MergeStrategy,
)
    ensures
        resolution(base, ours, theirs, strategy) matches Some(Some(x)) ==> ours == Some(x) || theirs == Some(x),
{
}

/// The view of a resolution: `None` for a conflict.
pub open spec fn resolution_view(r: Resolution) -> Option<Option<Seq<char>>> {
    match r {
        Resolution::Value(Some(v)) => Some(Some(v@)),
        Resolution::Value(None) => Some(None),
        Resolution::Conflict => None,
    }
}

pub open spec fn opt_str(o: Option<&str>) -> Option<Seq<char>> {
    match o {
        Some(s) => Some(s@),
        None => None,
    }
}

fn same_opt(a: Option<&str>, b: Option<&str>) -> (r: bool)
    ensures
        r == (opt_str(a) == opt_str(b)),
{
    match (a, b) {
        (None, None) => true,
        (Some(x), Some(y)) => {
            let xc = chars_of(x);
            let yc = chars_of(y);
            chars_eq(xc.as_slice(), yc.as_slice())
        },
        _ => false,
    }
}

fn owned(o: Option<&str>) -> (r: Option<String>)
    ensures
        match (r, o) {
            (Some(a), Some(b)) => a@ == b@,
            (None, None) => true,
            _ => false,
        },
{
    match o {
        Some(s) => Some(String::from_str(s)),
        None => None,
    }
}

/// Resolves one secret; see `resolution`.
pub fn resolve_value(
    base: Option<&str>,
    ours: Option<&str>,
    theirs: Option<&str>,
    strategy: MergeStrategy,
) -> (r: Resolution)
    ensures
        resolution_view(r) == resolution(opt_str(base), opt_str(ours), opt_str(theirs), strategy),
        opt_str(ours) != opt_str(base) && opt_str(theirs) != opt_str(base) && opt_str(ours) != opt_str(theirs)
            ==> match strategy {
            MergeStrategy::Fail => r is Conflict,
            MergeStrategy::Ours => resolution_view(r) == Some(opt_str(ours)),
            MergeStrategy::Theirs => resolution_view(r) == Some(opt_str(theirs)),
        },
{
    if same_opt(ours, theirs) {
        Resolution::Value(owned(ours))
    } else if theirs.is_some() && same_opt(base, ours) {
        Resolution::Value(owned(theirs))
    } else if theirs.is_none() && same_opt(base, ours) {
        Resolution::Value(None)
    } else if ours.is_some() && same_opt(base, theirs) {
        Resolution::Value(owned(ours))
    } else if ours.is_none() && same_opt(base, theirs) {
        Resolution::Value(None)
    } else {
        match strategy {
            MergeStrategy::Ours => Resolution::Value(owned(ours)),
            MergeStrategy::Theirs => Resolution::Value(owned(theirs)),
            MergeStrategy::Fail => Resolution::Conflict,
        }
    }
}

/// The strategy with the branches' roles exchanged.
pub open spec fn swapped(s: MergeStrategy) -> MergeStrategy {
    match s {
        MergeStrategy::Ours => MergeStrategy::Theirs,
        MergeStrategy::Theirs => MergeStrategy::Ours,
        MergeStrategy::Fail => MergeStrategy::Fail,
    }
}

/// The merge does not favour a side: exchanging the branches (and the
/// strategy's side) gives the same resolution.
pub proof fn lemma_resolution_symmetric(
    base: Option<Seq<char>>,
    ours: Option<Seq<char>>,
    theirs: Option<Seq<char>>,
    strategy: MergeStrategy,
)
    ensures
        resolution(base, ours, theirs, strategy) == resolution(base, theirs, ours, swapped(strategy)),
{
}

/// A change on one side only is taken: where the current branch left the
/// ancestor's value, the incoming value wins, and the other way round.
pub proof fn lemma_one_sided_change(
    base: Option<Seq<char>>,
    changed: Option<Seq<char>>,
    strategy: MergeStrategy,
)
    ensures
        resolution(base, base, changed, strategy) == Some(changed),
        resolution(base, changed, base, strategy) == Some(changed),
{
}

/// Agreeing branches need no strategy: the value they agree on stays, and
/// a secret both branches deleted stays deleted.
pub proof fn lemma_agreement(
    base: Option<Seq<char>>,
    value: Option<Seq<char>>,
    strategy: MergeStrategy,
)
    ensures
        resolution(base, value, value, strategy) == Some(value),
{
}

/// Under the fail strategy, branches that both left the ancestor's value,
/// for different outcomes (a change against a deletion included), always
/// conflict: no side is taken silently.
pub proof fn lemma_divergence_conflicts(
    base: Option<Seq<char>>,
    ours: Option<Seq<char>>,
    theirs: Option<Seq<char>>,
)
    requires
        ours != base,
        theirs != base,
        ours != theirs,
    ensures
        resolution(base, ours, theirs, MergeStrategy::Fail) is None,
        resolution(base, ours, theirs, MergeStrategy::Ours) == Some(ours),
        resolution(base, ours, theirs, MergeStrategy::Theirs) == Some(theirs),
{
}

/// Only a change on both sides to different outcomes can conflict.
pub proof fn lemma_conflict_needs_divergence(
    base: Option<Seq<char>>,
    ours: Option<Seq<char>>,
    theirs: Option<Seq<char>>,
    strategy: MergeStrategy,
)
    requires
        resolution(base, ours, theirs, strategy) is None,
    ensures
        strategy == MergeStrategy::Fail,
        ours != base,
        theirs != base,
        ours != theirs,
{
}


/// Two sealed values hold the same bytes.
pub open spec fn entry_same(a: Entry, b: Entry) -> bool {
    a.nonce@ == b.nonce@ && a.ciphertext@ == b.ciphertext@
}

/// Two maps of sealed values hold the same names with the same bytes.
pub open spec fn entries_same(a: StrMap<Entry>, b: StrMap<Entry>) -> bool {
    &&& a.key_seq() == b.key_seq()
    &&& forall|i: int| 0 <= i < a.entries().len() ==> entry_same(#[trigger] a.entries()[i].1, b.entries()[i].1)
}

pub open spec fn opt_bytes_same(a: Option<Vec<u8>>, b: Option<Vec<u8>>) -> bool {
    match (a, b) {
        (None, None) => true,
        (Some(x), Some(y)) => x@ == y@,
        _ => false,
    }
}

pub open spec fn opt_entry_same(a: Option<Entry>, b: Option<Entry>) -> bool {
    match (a, b) {
        (None, None) => true,
        (Some(x), Some(y)) => entry_same(x, y),
        _ => false,
    }
}

/// Two tags hold the same salt, wrapped key and sealed values.
pub open spec fn tag_same(a: Tag, b: Tag) -> bool {
    &&& opt_bytes_same(a.salt, b.salt)
    &&& opt_entry_same(a.wrapped_tag_dek, b.wrapped_tag_dek)
    &&& entries_same(a.entries, b.entries)
}

pub open spec fn tags_same(a: StrMap<Tag>, b: StrMap<Tag>) -> bool {
    &&& a.key_seq() == b.key_seq()
    &&& forall|i: int| 0 <= i < a.entries().len() ==> tag_same(#[trigger] a.entries()[i].1, b.entries()[i].1)
}

/// Two groups are the same: same link, base and tags, value for value.
pub open spec fn group_same(a: Group, b: Group) -> bool {
    &&& a.link@ == b.link@
    &&& entries_same(a.base, b.base)
    &&& tags_same(a.tags, b.tags)
}

fn entry_eq(a: &Entry, b: &Entry) -> (r: bool)
    ensures
        r == entry_same(*a, *b),
{
    bytes_eq(a.nonce.as_slice(), b.nonce.as_slice()) && bytes_eq(
        a.ciphertext.as_slice(),
        b.ciphertext.as_slice(),
    )
}

fn str_eq(a: &str, b: &str) -> (r: bool)
    ensures
        r == (a@ == b@),
{
    let ac = chars_of(a);
    let bc = chars_of(b);
    chars_eq(ac.as_slice(), bc.as_slice())
}

fn entries_eq(a: &StrMap<Entry>, b: &StrMap<Entry>) -> (r: bool)
    ensures
        r == entries_same(*a, *b),
{
    if a.len() != b.len() {
        assert(a.key_seq().len() != b.key_seq().len());
        return false;
    }
    let n = a.len();
    let mut i: usize = 0;
    while i < n
        invariant
            i <= n,
            n == a.entries().len(),
            n == b.entries().len(),
            forall|j: int| 0 <= j < i ==> a.key_seq()[j] == b.key_seq()[j],
            forall|j: int| 0 <= j < i ==> entry_same(#[trigger] a.entries()[j].1, b.entries()[j].1),
        decreases n - i,
    {
        let ka = a.key_at(i);
        let kb = b.key_at(i);
        if !str_eq(ka.as_str(), kb.as_str()) {
            assert(a.key_seq()[i as int] != b.key_seq()[i as int]);
            return false;
        }
        if !entry_eq(a.value_at(i), b.value_at(i)) {
            assert(!entry_same(a.entries()[i as int].1, b.entries()[i as int].1));
            return false;
        }
        i = i + 1;
    }
    assert(a.key_seq() =~= b.key_seq());
    true
}

fn opt_bytes_eq(a: &Option<Vec<u8>>, b: &Option<Vec<u8>>) -> (r: bool)
    ensures
        r == opt_bytes_same(*a, *b),
{
    match (a, b) {
        (None, None) => true,
        (Some(x), Some(y)) => bytes_eq(x.as_slice(), y.as_slice()),
        _ => false,
    }
}

fn opt_entry_eq(a: &Option<Entry>, b: &Option<Entry>) -> (r: bool)
    ensures
        r == opt_entry_same(*a, *b),
{
    match (a, b) {
        (None, None) => true,
        (Some(x), Some(y)) => entry_eq(x, y),
        _ => false,
    }
}

fn tag_eq(a: &Tag, b: &Tag) -> (r: bool)
    ensures
        r == tag_same(*a, *b),
{
    opt_bytes_eq(&a.salt, &b.salt) && opt_entry_eq(&a.wrapped_tag_dek, &b.wrapped_tag_dek)
        && entries_eq(&a.entries, &b.entries)
}

fn tags_eq(a: &StrMap<Tag>, b: &StrMap<Tag>) -> (r: bool)
    ensures
        r == tags_same(*a, *b),
{
    if a.len() != b.len() {
        assert(a.key_seq().len() != b.key_seq().len());
        return false;
    }
    let n = a.len();
    let mut i: usize = 0;
    while i < n
        invariant
            i <= n,
            n == a.entries().len(),
            n == b.entries().len(),
            forall|j: int| 0 <= j < i ==> a.key_seq()[j] == b.key_seq()[j],
            forall|j: int| 0 <= j < i ==> tag_same(#[trigger] a.entries()[j].1, b.entries()[j].1),
        decreases n - i,
    {
        let ka = a.key_at(i);
        let kb = b.key_at(i);
        if !str_eq(ka.as_str(), kb.as_str()) {
            assert(a.key_seq()[i as int] != b.key_seq()[i as int]);
            return false;
        }
        if !tag_eq(a.value_at(i), b.value_at(i)) {
            assert(!tag_same(a.entries()[i as int].1, b.entries()[i as int].1));
            return false;
        }
        i = i + 1;
    }
    assert(a.key_seq() =~= b.key_seq());
    true
}

/// Whether two groups are the same; see `group_same`.
pub fn group_eq(a: &Group, b: &Group) -> (r: bool)
    ensures
        r == group_same(*a, *b),
{
    str_eq(a.link.as_str(), b.link.as_str()) && entries_eq(&a.base, &b.base) && tags_eq(
        &a.tags,
        &b.tags,
    )
}

/// What becomes of a group, by where it exists and whether a side changed it.
#[derive(Clone, Copy, PartialEq, Eq, Structural, Debug)]
pub enum GroupAction {
    /// Drop it from the current branch.
    Remove,
    /// Leave the current branch's state as it is.
    Keep,
    /// Take the incoming branch's group whole.
    TakeTheirs,
    /// Changed on the current branch, deleted on the incoming one.
    ConflictDeletedIncoming,
    /// Deleted on the current branch, changed on the incoming one.
    ConflictDeletedLocal,
    /// Merge it secret by secret.
    MergeSecrets,
}

/// A group deleted on one side is deleted where the other side left it as
/// it was in the ancestor; otherwise the strategy decides. A group deleted
/// on both sides stays deleted; any other group is merged secret by secret.
pub open spec fn group_action(
    in_base: bool,
    in_ours: bool,
    in_theirs: bool,
    ours_unchanged: bool,
    theirs_unchanged: bool,
    strategy: MergeStrategy,
) -> GroupAction {
    if in_base && in_ours && !in_theirs {
        if ours_unchanged {
            GroupAction::Remove
        } else {
            match strategy {
                MergeStrategy::Theirs => GroupAction::Remove,
                MergeStrategy::Ours => GroupAction::Keep,
                MergeStrategy::Fail => GroupAction::ConflictDeletedIncoming,
            }
        }
    } else if in_base && !in_ours && in_theirs {
        if theirs_unchanged {
            GroupAction::Keep
        } else {
            match strategy {
                MergeStrategy::Ours => GroupAction::Keep,
                MergeStrategy::Theirs => GroupAction::TakeTheirs,
                MergeStrategy::Fail => GroupAction::ConflictDeletedLocal,
            }
        }
    } else if in_base && !in_ours && !in_theirs {
        GroupAction::Keep
    } else {
        GroupAction::MergeSecrets
    }
}

/// What becomes of whole groups: one deleted on one side and left as it
/// was on the other is deleted; one deleted on one side and changed on the
/// other is a conflict under the fail strategy, and otherwise goes the
/// strategy's side's way; one deleted on both sides stays deleted; one on
/// both sides (or new) is merged secret by secret.
pub proof fn lemma_group_rules(
    in_base: bool,
    in_ours: bool,
    in_theirs: bool,
    ours_unchanged: bool,
    theirs_unchanged: bool,
    strategy: MergeStrategy,
)
    ensures
        ({
            let a = group_action(in_base, in_ours, in_theirs, ours_unchanged, theirs_unchanged, strategy);
            &&& in_base && in_ours && !in_theirs && ours_unchanged ==> a is Remove
            &&& in_base && !in_ours && in_theirs && theirs_unchanged ==> a is Keep
            &&& in_base && in_ours && !in_theirs && !ours_unchanged ==> match strategy {
                MergeStrategy::Fail => a is ConflictDeletedIncoming,
                MergeStrategy::Ours => a is Keep,
                MergeStrategy::Theirs => a is Remove,
            }
            &&& in_base && !in_ours && in_theirs && !theirs_unchanged ==> match strategy {
                MergeStrategy::Fail => a is ConflictDeletedLocal,
                MergeStrategy::Ours => a is Keep,
                MergeStrategy::Theirs => a is TakeTheirs,
            }
            &&& in_base && !in_ours && !in_theirs ==> a is Keep
            &&& (in_ours && in_theirs) || !in_base ==> a is MergeSecrets
        }),
{
}

/// Decides what becomes of a group; see `group_action`.
pub fn decide_group(
    in_base: bool,
    in_ours: bool,
    in_theirs: bool,
    ours_unchanged: bool,
    theirs_unchanged: bool,
    strategy: MergeStrategy,
) -> (a: GroupAction)
    ensures
        a == group_action(in_base, in_ours, in_theirs, ours_unchanged, theirs_unchanged, strategy),
{
    if in_base && in_ours && !in_theirs {
        if ours_unchanged {
            GroupAction::Remove
        } else {
            match strategy {
                MergeStrategy::Theirs => GroupAction::Remove,
                MergeStrategy::Ours => GroupAction::Keep,
                MergeStrategy::Fail => GroupAction::ConflictDeletedIncoming,
            }
        }
    } else if in_base && !in_ours && in_theirs {
        if theirs_unchanged {
            GroupAction::Keep
        } else {
            match strategy {
                MergeStrategy::Ours => GroupAction::Keep,
                MergeStrategy::Theirs => GroupAction::TakeTheirs,
                MergeStrategy::Fail => GroupAction::ConflictDeletedLocal,
            }
        }
    } else if in_base && !in_ours && !in_theirs {
        GroupAction::Keep
    } else {
        GroupAction::MergeSecrets
    }
}


/// What the raw vault files already settle before any unlocking.
#[derive(Clone, Copy, PartialEq, Eq, Structural, Debug)]
pub enum MergeShortcut {
    /// Both branches hold the same file: nothing to merge.
    Identical,
    /// The incoming branch did not change the file: keep the current one.
    TheirsUnchanged,
    /// Only the incoming branch changed it: take its file (once its
    /// signature is checked).
    FastForward,
    /// Both changed it: merge secret by secret.
    ThreeWay,
}

/// What the raw files settle: same on both branches; unchanged on the
/// incoming branch; unchanged on the current branch; else a real merge.
pub open spec fn shortcut_of(base: Seq<u8>, ours: Seq<u8>, theirs: Seq<u8>) -> MergeShortcut {
    if ours == theirs {
        MergeShortcut::Identical
    } else if theirs == base {
        MergeShortcut::TheirsUnchanged
    } else if ours == base {
        MergeShortcut::FastForward
    } else {
        MergeShortcut::ThreeWay
    }
}

/// Only files changed on both branches, to different contents, need a
/// secret-by-secret merge; a file unchanged on one branch takes the other's
/// (the current one where the incoming branch left it as it was).
pub proof fn lemma_shortcut_rules(base: Seq<u8>, ours: Seq<u8>, theirs: Seq<u8>)
    ensures
        (shortcut_of(base, ours, theirs) == MergeShortcut::ThreeWay) <==> (ours != theirs && theirs
            != base && ours != base),
        ours == theirs ==> shortcut_of(base, ours, theirs) == MergeShortcut::Identical,
        ours != theirs && theirs == base ==> shortcut_of(base, ours, theirs)
            == MergeShortcut::TheirsUnchanged,
        ours != theirs && ours == base ==> shortcut_of(base, ours, theirs) == MergeShortcut::FastForward,
{
}

/// Decides what the raw vault files settle; see `shortcut_of`.
pub fn merge_shortcut(base: &[u8], ours: &[u8], theirs: &[u8]) -> (r: MergeShortcut)
    ensures
        r == shortcut_of(base@, ours@, theirs@),
{
    if bytes_eq(ours, theirs) {
        MergeShortcut::Identical
    } else if bytes_eq(theirs, base) {
        MergeShortcut::TheirsUnchanged
    } else if bytes_eq(ours, base) {
        MergeShortcut::FastForward
    } else {
        MergeShortcut::ThreeWay
    }
}

} // verus!

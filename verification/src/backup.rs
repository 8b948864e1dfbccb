//! What the keeping of backups computes: names, timestamps, kinds and their order.
//!
//! The backups themselves are written and read by the caller. A full backup is a copy of
//! the working directory in a directory named by its timestamp, inside the backup area of
//! the working directory. A virtual backup is a file that records a listing.

use vstd::prelude::*;
use crate::outside::push_char;
use crate::text::{chars_of, concat3, parent_path, spec_parent_path};

verus! {

/// One backup that can be restored.
#[derive(Debug, PartialEq, Eq)]
pub struct BackupInfo {
    /// Where the backup is kept.
    pub path: String,
    /// When it was made, in seconds since the epoch.
    pub timestamp: u64,
    /// Whether it records a listing rather than holding copies.
    pub is_virtual: bool,
}

/// The mathematical content of a `BackupInfo`.
pub struct BackupView {
    pub path: Seq<char>,
    pub timestamp: u64,
    pub is_virtual: bool,
}

impl View for BackupInfo {
    type V = BackupView;

    open spec fn view(&self) -> BackupView {
        BackupView { path: self.path@, timestamp: self.timestamp, is_virtual: self.is_virtual }
    }
}

/// The views of a sequence of backups.
pub open spec fn backups_view(backups: Seq<BackupInfo>) -> Seq<BackupView> {
    backups.map_values(|b: BackupInfo| b@)
}

/// The character of the digit `d`.
pub open spec fn digit_char(d: nat) -> char {
    if d == 0 {
        '0'
    } else if d == 1 {
        '1'
    } else if d == 2 {
        '2'
    } else if d == 3 {
        '3'
    } else if d == 4 {
        '4'
    } else if d == 5 {
        '5'
    } else if d == 6 {
        '6'
    } else if d == 7 {
        '7'
    } else if d == 8 {
        '8'
    } else {
        '9'
    }
}

/// The number `n` in decimal digits, without leading zeros; `0` for zero.
pub open spec fn spec_decimal(n: nat) -> Seq<char>
    decreases n,
{
    if n < 10 {
        seq![digit_char(n)]
    } else {
        spec_decimal(n / 10).push(digit_char(n % 10))
    }
}

/// The character of the digit `d`.
fn digit_of(d: u64) -> (c: char)
    requires
        d < 10,
    ensures
        c == digit_char(d as nat),
{
    if d == 0 {
        '0'
    } else if d == 1 {
        '1'
    } else if d == 2 {
        '2'
    } else if d == 3 {
        '3'
    } else if d == 4 {
        '4'
    } else if d == 5 {
        '5'
    } else if d == 6 {
        '6'
    } else if d == 7 {
        '7'
    } else if d == 8 {
        '8'
    } else {
        '9'
    }
}

/// Appends `n` in decimal digits to `out`.
fn push_decimal(out: &mut String, n: u64)
    ensures
        final(out)@ == old(out)@ + spec_decimal(n as nat),
    decreases n,
{
    if n >= 10 {
        push_decimal(out, n / 10);
    }
    push_char(out, digit_of(n % 10));
}

/// The number `n` in decimal digits.
pub fn decimal(n: u64) -> (s: String)
    ensures
        s@ == spec_decimal(n as nat),
{
    let mut s = String::new();
    push_decimal(&mut s, n);
    s
}

/// The value of the decimal digit `c`, if it is one.
pub open spec fn digit_value(c: char) -> Option<nat> {
    if c == '0' {
        Some(0)
    } else if c == '1' {
        Some(1)
    } else if c == '2' {
        Some(2)
    } else if c == '3' {
        Some(3)
    } else if c == '4' {
        Some(4)
    } else if c == '5' {
        Some(5)
    } else if c == '6' {
        Some(6)
    } else if c == '7' {
        Some(7)
    } else if c == '8' {
        Some(8)
    } else if c == '9' {
        Some(9)
    } else {
        None
    }
}

/// The number that the digits `digits` stand for; nothing where one of them is no digit.
/// No digits stand for zero.
pub open spec fn digits_value(digits: Seq<char>) -> Option<nat>
    decreases digits.len(),
{
    if digits.len() == 0 {
        Some(0)
    } else {
        match (digits_value(digits.drop_last()), digit_value(digits.last())) {
            (Some(high), Some(low)) => Some(high * 10 + low),
            _ => None,
        }
    }
}

/// The timestamp that `name` stands for: the number that its digits spell, where it is
/// made of one digit at least, with or without a `+` before them, and the number is one
/// that 64 bits hold.
pub open spec fn spec_parse_timestamp(name: Seq<char>) -> Option<u64> {
    let digits = if name.len() > 0 && name[0] == '+' {
        name.subrange(1, name.len() as int)
    } else {
        name
    };
    if digits.len() == 0 {
        None
    } else {
        match digits_value(digits) {
            Some(n) => if n <= u64::MAX {
                Some(n as u64)
            } else {
                None
            },
            None => None,
        }
    }
}

/// The value of the decimal digit `c`, if it is one.
fn value_of_digit(c: char) -> (r: Option<u64>)
    ensures
        r is Some <==> digit_value(c) is Some,
        r matches Some(d) ==> d < 10 && digit_value(c) == Some(d as nat),
{
    if c == '0' {
        Some(0)
    } else if c == '1' {
        Some(1)
    } else if c == '2' {
        Some(2)
    } else if c == '3' {
        Some(3)
    } else if c == '4' {
        Some(4)
    } else if c == '5' {
        Some(5)
    } else if c == '6' {
        Some(6)
    } else if c == '7' {
        Some(7)
    } else if c == '8' {
        Some(8)
    } else if c == '9' {
        Some(9)
    } else {
        None
    }
}

/// Once the digits read so far stand for nothing, or for more than 64 bits hold, no
/// further digit mends it.
proof fn lemma_digits_value_grows(digits: Seq<char>, k: int)
    requires
        0 <= k <= digits.len(),
    ensures
        digits_value(digits.subrange(0, k)) is None ==> digits_value(digits) is None,
        digits_value(digits) matches Some(n) ==> digits_value(digits.subrange(0, k)) is Some
            && digits_value(digits.subrange(0, k))->0 <= n,
    decreases digits.len() - k,
{
    if k < digits.len() {
        lemma_digits_value_grows(digits, k + 1);
        assert(digits.subrange(0, k + 1).drop_last() =~= digits.subrange(0, k));
    } else {
        assert(digits.subrange(0, k) =~= digits);
    }
}

/// Reads the timestamp that names a full backup.
pub fn parse_timestamp(name: &str) -> (r: Option<u64>)
    ensures
        r == spec_parse_timestamp(name@),
{
    let v = chars_of(name);
    let start: usize = if v.len() > 0 && v[0] == '+' {
        1
    } else {
        0
    };
    if start >= v.len() {
        return None;
    }
    let ghost digits = v@.subrange(start as int, v.len() as int);
    assert(start == 0 ==> digits =~= v@);
    let mut value: u64 = 0;
    let mut i: usize = start;
    assert(digits.subrange(0, 0) =~= Seq::<char>::empty());
    while i < v.len()
        invariant
            start <= i <= v.len(),
            start < v.len(),
            v@ == name@,
            start == if name@.len() > 0 && name@[0] == '+' {
                1int
            } else {
                0int
            },
            digits == v@.subrange(start as int, v.len() as int),
            start == 0 ==> digits == name@,
            digits_value(digits.subrange(0, i - start)) == Some(value as nat),
        decreases v.len() - i,
    {
        let ghost next = digits.subrange(0, i - start + 1);
        assert(next.drop_last() =~= digits.subrange(0, i - start));
        assert(next.last() == v@[i as int]);
        proof {
            lemma_digits_value_grows(digits, i - start + 1);
        }
        match value_of_digit(v[i]) {
            None => {
                assert(digits_value(next) is None);
                return None;
            },
            Some(d) => {
                assert(digits_value(next) == Some((value * 10 + d) as nat));
                if value > (u64::MAX - d) / 10 {
                    assert(value * 10 + d > u64::MAX);
                    return None;
                }
                value = value * 10 + d;
            },
        }
        i = i + 1;
    }
    assert(digits.subrange(0, digits.len() as int) =~= digits);
    Some(value)
}

/// The name of the part of the working directory where full backups are kept.
pub open spec fn backup_area() -> Seq<char> {
    ".treenamer_backup"@
}

/// The name of the part of the working directory where the current state waits while a
/// full backup is restored.
pub open spec fn holding_area() -> Seq<char> {
    ".treenamer_temp"@
}

/// Whether an entry called `name`, directly in the working directory, belongs to the
/// keeping of backups and takes no part in copying, moving or reconciling.
pub fn is_backup_area(name: &str) -> (r: bool)
    ensures
        r == (name@ == backup_area() || name@ == holding_area()),
{
    let n = name.to_owned();
    let a = ".treenamer_backup".to_owned();
    let b = ".treenamer_temp".to_owned();
    n == a || n == b
}

/// The place of `item` under `dir` under `base`: the three joined by `/`.
pub open spec fn under(base: Seq<char>, dir: Seq<char>, item: Seq<char>) -> Seq<char> {
    base + "/"@ + dir + "/"@ + item
}

/// The directory of the full backup of `source` made at `timestamp`.
pub fn full_backup_dir(source: &str, timestamp: u64) -> (p: String)
    ensures
        p@ == under(source@, backup_area(), spec_decimal(timestamp as nat)),
{
    let mut p = concat3(source, "/", ".treenamer_backup");
    p.append("/");
    p.append(decimal(timestamp).as_str());
    p
}

/// The directory in which the current state of `origin` waits while the full backup made
/// at `timestamp` is restored.
pub fn holding_dir(origin: &str, timestamp: u64) -> (p: String)
    ensures
        p@ == under(origin@, holding_area(), spec_decimal(timestamp as nat)),
{
    let mut p = concat3(origin, "/", ".treenamer_temp");
    p.append("/");
    p.append(decimal(timestamp).as_str());
    p
}

/// The name of the file of the virtual backup made at `timestamp`.
pub fn virtual_backup_name(timestamp: u64) -> (name: String)
    ensures
        name@ == "virtual_backup_"@ + spec_decimal(timestamp as nat) + ".json"@,
{
    concat3("virtual_backup_", decimal(timestamp).as_str(), ".json")
}

/// The description of the backup made at `timestamp`.
pub fn backup_description(timestamp: u64) -> (text: String)
    ensures
        text@ == "Backup created at "@ + spec_decimal(timestamp as nat),
{
    crate::text::concat2("Backup created at ", decimal(timestamp).as_str())
}

/// The working directory that the full backup at `backup_path` was made of: two levels
/// up, where the path has them.
pub open spec fn spec_backup_origin(backup_path: Seq<char>) -> Option<Seq<char>> {
    match spec_parent_path(backup_path) {
        Some(area) => spec_parent_path(area),
        None => None,
    }
}

/// The working directory that the full backup at `backup_path` was made of.
pub fn full_backup_origin(backup_path: &str) -> (r: Option<String>)
    ensures
        r is Some <==> spec_backup_origin(backup_path@) is Some,
        r matches Some(origin) ==> origin@ == spec_backup_origin(backup_path@)->0,
{
    match parent_path(backup_path) {
        Some(area) => parent_path(area.as_str()),
        None => None,
    }
}

/// What kind of backup a path holds.
#[derive(Clone, Copy, Debug, PartialEq, Eq, Structural)]
pub enum BackupKind {
    /// A file that records a listing.
    Virtual,
    /// A directory of copies.
    Full,
    /// Neither.
    Invalid,
}

/// Whether `path` ends in `.json`, with something before the dot in its last segment.
pub open spec fn has_json_extension(path: Seq<char>) -> bool {
    let suffix = ".json"@;
    &&& path.len() > suffix.len()
    &&& path.subrange(path.len() - suffix.len(), path.len() as int) == suffix
    &&& path[path.len() - suffix.len() - 1] != '/'
}

/// Whether `path` ends in `.json`.
pub fn is_json_file_name(path: &str) -> (r: bool)
    ensures
        r == has_json_extension(path@),
{
    proof {
        reveal_strlit(".json");
    }
    let v = chars_of(path);
    let n = v.len();
    if n <= 5 {
        return false;
    }
    let ends = v[n - 5] == '.' && v[n - 4] == 'j' && v[n - 3] == 's' && v[n - 2] == 'o' && v[n
        - 1] == 'n';
    if !ends {
        assert(v@.subrange(n - 5, n as int) != ".json"@) by {
            let t = v@.subrange(n - 5, n as int);
            if t == ".json"@ {
                assert(t[0] == '.' && t[1] == 'j' && t[2] == 's' && t[3] == 'o' && t[4] == 'n');
            }
        }
        return false;
    }
    assert(v@.subrange(n - 5, n as int) =~= ".json"@);
    v[n - 6] != '/'
}

/// The kind of the backup at `path`, which the caller found to be a file or a directory
/// or neither: a file that ends in `.json` is a virtual backup, a directory a full one.
pub fn backup_kind(path: &str, is_file: bool, is_dir: bool) -> (k: BackupKind)
    ensures
        k == if is_file && has_json_extension(path@) {
            BackupKind::Virtual
        } else if is_dir {
            BackupKind::Full
        } else {
            BackupKind::Invalid
        },
{
    if is_file && is_json_file_name(path) {
        BackupKind::Virtual
    } else if is_dir {
        BackupKind::Full
    } else {
        BackupKind::Invalid
    }
}

/// The full backup that the directory `name` at `path` holds, if its name is a timestamp.
pub fn local_backup(path: &str, name: &str) -> (r: Option<BackupInfo>)
    ensures
        r is Some <==> spec_parse_timestamp(name@) is Some,
        r matches Some(b) ==> b@ == (BackupView {
            path: path@,
            timestamp: spec_parse_timestamp(name@)->0,
            is_virtual: false,
        }),
{
    match parse_timestamp(name) {
        Some(timestamp) => Some(BackupInfo { path: path.to_owned(), timestamp, is_virtual: false }),
        None => None,
    }
}

/// The virtual backup that the file at `path` holds for the working directory `wanted`,
/// given the working directory and the timestamp that the file records.
pub fn virtual_backup(path: &str, wanted: &str, base_directory: &str, timestamp: u64) -> (r:
    Option<BackupInfo>)
    ensures
        r is Some <==> base_directory@ == wanted@,
        r matches Some(b) ==> b@ == (BackupView { path: path@, timestamp, is_virtual: true }),
{
    let w = wanted.to_owned();
    let b = base_directory.to_owned();
    if w == b {
        Some(BackupInfo { path: path.to_owned(), timestamp, is_virtual: true })
    } else {
        None
    }
}

/// Where `x` goes into the list `sorted`, which runs from the newest backup to the
/// oldest, looking from position `from` on: before the first backup that is older, at the
/// end where there is none.
pub open spec fn newest_position(sorted: Seq<BackupView>, x: BackupView, from: nat) -> nat
    decreases sorted.len() - from,
{
    if from < sorted.len() && sorted[from as int].timestamp >= x.timestamp {
        newest_position(sorted, x, from + 1)
    } else {
        from
    }
}

/// The position lies within the list or at its end.
pub proof fn lemma_newest_position(sorted: Seq<BackupView>, x: BackupView, from: nat)
    requires
        from <= sorted.len(),
    ensures
        from <= newest_position(sorted, x, from) <= sorted.len(),
        forall|k: int|
            from <= k < newest_position(sorted, x, from) ==> (#[trigger] sorted[k]).timestamp
                >= x.timestamp,
        newest_position(sorted, x, from) < sorted.len() ==> sorted[newest_position(
            sorted,
            x,
            from,
        ) as int].timestamp < x.timestamp,
    decreases sorted.len() - from,
{
    if from < sorted.len() && sorted[from as int].timestamp >= x.timestamp {
        lemma_newest_position(sorted, x, from + 1);
    }
}

/// The first `n` of `backups` from the newest to the oldest; backups of the same
/// timestamp keep their order.
pub open spec fn newest_first(backups: Seq<BackupView>, n: nat) -> Seq<BackupView>
    decreases n,
{
    if n == 0 || n > backups.len() {
        Seq::empty()
    } else {
        let before = newest_first(backups, (n - 1) as nat);
        before.insert(newest_position(before, backups[n - 1], 0) as int, backups[n - 1])
    }
}

/// Whether `backups` runs from the newest to the oldest.
pub open spec fn runs_newest_first(backups: Seq<BackupView>) -> bool {
    forall|p: int, q: int|
        0 <= p < q < backups.len() ==> (#[trigger] backups[p]).timestamp >= (
        #[trigger] backups[q]).timestamp
}

/// Ordering yields a list that runs from the newest backup to the oldest and holds the
/// same backups, each as often as before.
pub proof fn lemma_newest_first(backups: Seq<BackupView>, n: nat)
    requires
        n <= backups.len(),
    ensures
        newest_first(backups, n).len() == n,
        runs_newest_first(newest_first(backups, n)),
        newest_first(backups, n).to_multiset() == backups.take(n as int).to_multiset(),
    decreases n,
{
    if n == 0 {
        assert(backups.take(0) =~= Seq::<BackupView>::empty());
    } else {
        let before = newest_first(backups, (n - 1) as nat);
        lemma_newest_first(backups, (n - 1) as nat);
        let x = backups[n - 1];
        let at = newest_position(before, x, 0) as int;
        lemma_newest_position(before, x, 0);
        let after = before.insert(at, x);
        assert forall|p: int, q: int| 0 <= p < q < after.len() implies (#[trigger] after[p]).timestamp
            >= (#[trigger] after[q]).timestamp by {
            if q < at {
                assert(after[p] == before[p] && after[q] == before[q]);
            } else if q == at {
                assert(after[p] == before[p]);
            } else if p < at {
                assert(after[p] == before[p] && after[q] == before[q - 1]);
                if at < before.len() {
                    assert(before[at].timestamp >= before[q - 1].timestamp || q - 1 == at);
                }
            } else if p == at {
                assert(after[q] == before[q - 1]);
                assert(before[at].timestamp >= before[q - 1].timestamp || q - 1 == at);
            } else {
                assert(after[p] == before[p - 1] && after[q] == before[q - 1]);
            }
        }
        vstd::seq_lib::lemma_multiset_commutative(before.subrange(0, at), before.subrange(at, before.len() as int));
        assert(before.subrange(0, at) + before.subrange(at, before.len() as int) =~= before);
        vstd::seq_lib::lemma_multiset_commutative(before.subrange(0, at).push(x), before.subrange(at, before.len() as int));
        assert(before.subrange(0, at).push(x) + before.subrange(at, before.len() as int) =~= after);
        vstd::seq::Seq::<BackupView>::to_multiset_ensures(before.subrange(0, at));
        let prefix = backups.take(n - 1);
        assert(backups.take(n as int) =~= prefix.push(x));
        vstd::seq::Seq::<BackupView>::to_multiset_ensures(prefix);
        assert(after.to_multiset() =~= backups.take(n as int).to_multiset());
    }
}

/// Orders `backups` from the newest to the oldest. Backups of the same timestamp keep
/// their order.
pub fn sort_newest_first(backups: &Vec<BackupInfo>) -> (out: Vec<BackupInfo>)
    ensures
        backups_view(out@) == newest_first(backups_view(backups@), backups@.len()),
        runs_newest_first(backups_view(out@)),
        backups_view(out@).to_multiset() == backups_view(backups@).to_multiset(),
{
    let ghost views = backups_view(backups@);
    let mut out: Vec<BackupInfo> = Vec::new();
    assert(backups_view(out@) =~= Seq::<BackupView>::empty());
    let mut i: usize = 0;
    while i < backups.len()
        invariant
            i <= backups.len(),
            views == backups_view(backups@),
            backups_view(out@) == newest_first(views, i as nat),
        decreases backups.len() - i,
    {
        let item = BackupInfo {
            path: backups[i].path.clone(),
            timestamp: backups[i].timestamp,
            is_virtual: backups[i].is_virtual,
        };
        assert(item@ == views[i as int]);
        let ghost sorted = backups_view(out@);
        let mut at: usize = 0;
        while at < out.len() && out[at].timestamp >= item.timestamp
            invariant
                at <= out.len(),
                sorted == backups_view(out@),
                newest_position(sorted, item@, 0) == newest_position(sorted, item@, at as nat),
            decreases out.len() - at,
        {
            assert(sorted[at as int] == out@[at as int]@);
            at = at + 1;
        }
        proof {
            if at < out.len() {
                assert(sorted[at as int] == out@[at as int]@);
            }
        }
        out.insert(at, item);
        assert(backups_view(out@) =~= sorted.insert(at as int, item@));
        i = i + 1;
    }
    proof {
        lemma_newest_first(views, views.len());
        assert(views.take(views.len() as int) =~= views);
    }
    out
}

} // verus!

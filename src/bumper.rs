use vstd::prelude::*;
use vstd::string::*;
use vstd::utf8::*;

verus! {

/// Whether a byte is an ASCII decimal digit.
pub open spec fn is_digit(b: u8) -> bool {
    48 <= b && b <= 57
}

/// Whether every byte of `s` is a decimal digit.
pub open spec fn all_digits(s: Seq<u8>) -> bool {
    forall|i: int| 0 <= i < s.len() ==> is_digit(#[trigger] s[i])
}

/// The value of a run of decimal digits, most significant first.
pub open spec fn digits_value(s: Seq<u8>) -> nat
    decreases s.len(),
{
    if s.len() == 0 {
        0
    } else {
        digits_value(s.drop_last()) * 10 + ((s.last() - 48) as nat)
    }
}

/// The process id that a directory entry of the process listing names: a
/// non-empty run of decimal digits whose value fits an `i32`.
pub open spec fn entry_pid(name: Seq<u8>) -> Option<i32> {
    if name.len() > 0 && all_digits(name) && digits_value(name) <= i32::MAX as nat {
        Some(digits_value(name) as i32)
    } else {
        None
    }
}

/// What `i32`'s decimal parser makes of `s`: an optional sign, then at least
/// one digit, with a value in range.
pub open spec fn parse_i32(s: Seq<u8>) -> Option<i32> {
    let signed = s.len() > 0 && (s[0] == 45u8 || s[0] == 43u8);
    let negative = s.len() > 0 && s[0] == 45u8;
    let digits = if signed {
        s.drop_first()
    } else {
        s
    };
    let value: int = if negative {
        -(digits_value(digits) as int)
    } else {
        digits_value(digits) as int
    };
    if digits.len() > 0 && all_digits(digits) && i32::MIN <= value && value <= i32::MAX {
        Some(value as i32)
    } else {
        None
    }
}

proof fn lemma_digits_prefix_le(s: Seq<u8>, k: int)
    requires
        0 <= k <= s.len(),
        all_digits(s),
    ensures
        digits_value(s.subrange(0, k)) <= digits_value(s),
    decreases s.len() - k,
{
    if k < s.len() {
        lemma_digits_prefix_le(s, k + 1);
        let p = s.subrange(0, k + 1);
        assert(p.drop_last() =~= s.subrange(0, k));
        assert(is_digit(s[k]));
    } else {
        assert(s.subrange(0, k) =~= s);
    }
}

/// Reads the decimal digits of `s[start..end]`; `None` when the run is empty,
/// holds another byte, or exceeds `limit`.
fn digits_in(s: &Vec<u8>, start: usize, end: usize, limit: u64) -> (r: Option<u64>)
    requires
        start <= end <= s@.len(),
        limit <= u32::MAX,
    ensures
        r matches Some(v) ==> {
            let d = s@.subrange(start as int, end as int);
            &&& d.len() > 0
            &&& all_digits(d)
            &&& v == digits_value(d)
            &&& v <= limit
        },
        r is None ==> {
            let d = s@.subrange(start as int, end as int);
            d.len() == 0 || !all_digits(d) || digits_value(d) > limit
        },
{
    if start == end {
        return None;
    }
    let mut value: u64 = 0;
    let mut i: usize = start;
    while i < end
        invariant
            start <= i <= end <= s@.len(),
            all_digits(s@.subrange(start as int, i as int)),
            value == digits_value(s@.subrange(start as int, i as int)),
            value <= limit,
            limit <= u32::MAX,
        decreases end - i,
    {
        let b = s[i];
        let ghost d = s@.subrange(start as int, end as int);
        if b < 48 || b > 57 {
            assert(!is_digit(d[i - start]));
            return None;
        }
        let ghost p = s@.subrange(start as int, i as int + 1);
        assert(p.drop_last() =~= s@.subrange(start as int, i as int));
        assert(all_digits(p)) by {
            assert forall|j: int| 0 <= j < p.len() implies is_digit(#[trigger] p[j]) by {
                if j < p.len() - 1 {
                    assert(p[j] == s@.subrange(start as int, i as int)[j]);
                }
            }
        }
        let next: u64 = value * 10 + (b - 48) as u64;
        i = i + 1;
        if next > limit {
            proof {
                if all_digits(d) {
                    assert(d.subrange(0, i - start) =~= p);
                    lemma_digits_prefix_le(d, i - start);
                }
            }
            return None;
        }
        value = next;
    }
    Some(value)
}

/// Parses `s[start..end]` as `i32`'s decimal parser does.
fn parse_i32_in(s: &Vec<u8>, start: usize, end: usize) -> (r: Option<i32>)
    requires
        start <= end <= s@.len(),
    ensures
        r == parse_i32(s@.subrange(start as int, end as int)),
{
    let ghost whole = s@.subrange(start as int, end as int);
    if start < end && (s[start] == 45u8 || s[start] == 43u8) {
        let negative = s[start] == 45u8;
        assert(whole.drop_first() =~= s@.subrange(start as int + 1, end as int));
        let limit: u64 = if negative { 2147483648 } else { 2147483647 };
        match digits_in(s, start + 1, end, limit) {
            Some(v) => {
                if negative {
                    Some((0i64 - v as i64) as i32)
                } else {
                    Some(v as i32)
                }
            },
            None => None,
        }
    } else {
        match digits_in(s, start, end, 2147483647) {
            Some(v) => Some(v as i32),
            None => None,
        }
    }
}

/// The process id named by a directory entry, when the name is one.
pub fn parse_entry_pid(name: &Vec<u8>) -> (r: Option<i32>)
    ensures
        r == entry_pid(name@),
{
    assert(name@.subrange(0, name@.len() as int) =~= name@);
    match digits_in(name, 0, name.len(), 2147483647) {
        Some(v) => Some(v as i32),
        None => None,
    }
}

/// Whether `s` holds `") "` at index `i`.
pub open spec fn close_at(s: Seq<u8>, i: int) -> bool {
    0 <= i && i + 1 < s.len() && s[i] == 41u8 && s[i + 1] == 32u8
}

/// The last index below `n` at which `") "` starts.
pub open spec fn last_close(s: Seq<u8>, n: int) -> Option<int>
    decreases n,
{
    if n <= 0 {
        None
    } else if close_at(s, n - 1) {
        Some(n - 1)
    } else {
        last_close(s, n - 1)
    }
}

/// The first index at or after `from` that holds a space, or the length.
pub open spec fn next_space(s: Seq<u8>, from: int) -> int
    decreases s.len() - from,
{
    if from < 0 || from >= s.len() {
        s.len() as int
    } else if s[from] == 32u8 {
        from
    } else {
        next_space(s, from + 1)
    }
}

/// The parent process id that a process status record gives: the record is
/// split on spaces after the last `") "` (the command name may hold
/// parentheses) and the second field of that rest is read as an `i32`.
pub open spec fn stat_ppid(s: Seq<u8>) -> Option<i32> {
    match last_close(s, s.len() as int) {
        None => None,
        Some(i) => {
            let first_end = next_space(s, i + 2);
            if first_end >= s.len() {
                None
            } else {
                parse_i32(s.subrange(first_end + 1, next_space(s, first_end + 1)))
            }
        },
    }
}

fn find_last_close(s: &Vec<u8>) -> (r: Option<usize>)
    ensures
        r matches Some(i) ==> i + 2 <= s@.len() && last_close(s@, s@.len() as int) == Some(i as int),
        r is None ==> last_close(s@, s@.len() as int) is None,
{
    let mut n: usize = s.len();
    while n > 0
        invariant
            n <= s@.len(),
            last_close(s@, s@.len() as int) == last_close(s@, n as int),
        decreases n,
    {
        if n < s.len() && s[n - 1] == 41u8 && s[n] == 32u8 {
            return Some(n - 1);
        }
        n = n - 1;
    }
    None
}

fn find_space(s: &Vec<u8>, from: usize) -> (r: usize)
    requires
        from <= s@.len(),
    ensures
        r == next_space(s@, from as int),
        from <= r <= s@.len(),
{
    let mut i: usize = from;
    while i < s.len()
        invariant
            from <= i <= s@.len(),
            next_space(s@, from as int) == next_space(s@, i as int),
        decreases s@.len() - i,
    {
        if s[i] == 32u8 {
            return i;
        }
        i = i + 1;
    }
    i
}

/// Reads the parent process id out of a process status record.
pub fn parse_stat_ppid(stat: &Vec<u8>) -> (r: Option<i32>)
    ensures
        r == stat_ppid(stat@),
{
    let len = stat.len();
    match find_last_close(stat) {
        None => None,
        Some(i) => {
            assert(i + 2 <= len);
            let first_end = find_space(stat, i + 2);
            if first_end >= stat.len() {
                None
            } else {
                let second_end = find_space(stat, first_end + 1);
                parse_i32_in(stat, first_end + 1, second_end)
            }
        },
    }
}

/// Whether the status record names `ppid` as the parent process.
pub fn is_parent(ppid: i32, stat: &Vec<u8>) -> (r: bool)
    ensures
        r == (stat_ppid(stat@) == Some(ppid)),
{
    match parse_stat_ppid(stat) {
        Some(found) => found == ppid,
        None => false,
    }
}

/// Whether `c` has Unicode's `White_Space` property, which `str::trim` strips.
pub open spec fn is_white_space(c: char) -> bool {
    ('\u{9}' <= c && c <= '\u{d}') || c == ' ' || c == '\u{85}' || c == '\u{a0}' || c == '\u{1680}'
        || ('\u{2000}' <= c && c <= '\u{200a}') || c == '\u{2028}' || c == '\u{2029}' || c
        == '\u{202f}' || c == '\u{205f}' || c == '\u{3000}'
}

pub open spec fn trim_start(s: Seq<char>) -> Seq<char>
    decreases s.len(),
{
    if s.len() > 0 && is_white_space(s[0]) {
        trim_start(s.drop_first())
    } else {
        s
    }
}

pub open spec fn trim_end(s: Seq<char>) -> Seq<char>
    decreases s.len(),
{
    if s.len() > 0 && is_white_space(s.last()) {
        trim_end(s.drop_last())
    } else {
        s
    }
}

/// `s` without leading and trailing white space.
pub open spec fn trimmed(s: Seq<char>) -> Seq<char> {
    trim_end(trim_start(s))
}

/// Relies on `str::trim`: removes leading and trailing `White_Space` characters.
#[verifier::external_body]
fn trim_text(s: &str) -> (r: String)
    ensures
        r@ == trimmed(s@),
{
    s.trim().to_string()
}

/// Relies on `std::str::from_utf8`: succeeds exactly on valid UTF-8 and then
/// holds the decoded characters.
#[verifier::external_body]
fn decode_utf8_bytes(b: &[u8]) -> (r: Option<String>)
    ensures
        r is Some <==> valid_utf8(b@),
        r matches Some(t) ==> t@ == decode_utf8(b@),
{
    match std::str::from_utf8(b) {
        Ok(t) => Some(t.to_string()),
        Err(_) => None,
    }
}

/// The text of one argument: its characters when it is valid UTF-8, else nothing.
pub open spec fn argument_text(b: Seq<u8>) -> Seq<char> {
    if valid_utf8(b) {
        decode_utf8(b)
    } else {
        Seq::empty()
    }
}

/// Appends an argument to the text built so far, with a space between the two
/// unless the text is still empty.
pub open spec fn join_argument(acc: Seq<char>, arg: Seq<char>) -> Seq<char> {
    if acc.len() == 0 {
        arg
    } else {
        acc + seq![' '] + arg
    }
}

/// Reading a null-delimited argument vector from the left: the text of the
/// arguments completed so far and the bytes of the one in progress.
pub open spec fn cmdline_scan(b: Seq<u8>) -> (Seq<char>, Seq<u8>)
    decreases b.len(),
{
    if b.len() == 0 {
        (Seq::empty(), Seq::empty())
    } else {
        let (acc, cur) = cmdline_scan(b.drop_last());
        if b.last() == 0 {
            (join_argument(acc, argument_text(cur)), Seq::empty())
        } else {
            (acc, cur.push(b.last()))
        }
    }
}

/// The command line that an argument vector reads as: the arguments joined by
/// spaces, an argument that is not UTF-8 read as empty, and the whole trimmed.
pub open spec fn cmdline_text(b: Seq<u8>) -> Seq<char> {
    let (acc, cur) = cmdline_scan(b);
    trimmed(join_argument(acc, argument_text(cur)))
}

fn append_argument(acc: &mut String, cur: &Vec<u8>)
    ensures
        final(acc)@ == join_argument(old(acc)@, argument_text(cur@)),
{
    let text = match decode_utf8_bytes(cur.as_slice()) {
        Some(t) => t,
        None => String::new(),
    };
    if acc.as_str().is_empty() {
        *acc = text;
    } else {
        proof {
            reveal_strlit(" ");
        }
        acc.append(" ");
        acc.append(text.as_str());
        assert(acc@ =~= join_argument(old(acc)@, argument_text(cur@)));
    }
}

/// Turns a null-delimited argument vector into the command line it reads as.
pub fn parse_cmdline(bytes: &Vec<u8>) -> (r: String)
    ensures
        r@ == cmdline_text(bytes@),
{
    let mut acc = String::new();
    let mut cur: Vec<u8> = Vec::new();
    let mut i: usize = 0;
    while i < bytes.len()
        invariant
            i <= bytes@.len(),
            (acc@, cur@) == cmdline_scan(bytes@.subrange(0, i as int)),
        decreases bytes@.len() - i,
    {
        let b = bytes[i];
        assert(bytes@.subrange(0, i as int + 1).drop_last() =~= bytes@.subrange(0, i as int));
        if b == 0 {
            append_argument(&mut acc, &cur);
            cur = Vec::new();
        } else {
            cur.push(b);
        }
        i = i + 1;
    }
    assert(bytes@.subrange(0, i as int) =~= bytes@);
    append_argument(&mut acc, &cur);
    trim_text(acc.as_str())
}

/// Errors of process resolution and signalling.
#[derive(Debug)]
pub enum Error {
    InitError(String),
    ProcError(String),
    SignalError(String),
}

#[verifier::external_type_specification]
#[verifier::external_body]
pub struct ExRegex(regex::Regex);

/// Whether `regex::Regex::new` accepts the pattern.
pub uninterp spec fn regex_compiles(pattern: Seq<char>) -> bool;

/// Whether the regular expression `pattern` matches somewhere in `text`.
pub uninterp spec fn regex_matches(pattern: Seq<char>, text: Seq<char>) -> bool;

/// Relies on `regex::Regex::new`: compiles the pattern, failing exactly when
/// it is not a valid regular expression (a function of the pattern alone);
/// the error is handed on as its message.
#[verifier::external_body]
fn compile_regex(pattern: &str) -> (r: Result<regex::Regex, String>)
    ensures
        r.is_ok() == regex_compiles(pattern@),
{
    regex::Regex::new(pattern).map_err(|e| e.to_string())
}

/// A regular expression over command lines, kept with its source text.
pub struct CmdlinePattern {
    source: String,
    regex: regex::Regex,
}

impl View for CmdlinePattern {
    type V = Seq<char>;

    closed spec fn view(&self) -> Seq<char> {
        self.source@
    }
}

/// Relies on `regex::Regex::is_match`; the pattern's `regex` is always the
/// one compiled from its `source`, as `CmdlinePattern::new` is the only
/// constructor.
#[verifier::external_body]
fn pattern_is_match(p: &CmdlinePattern, text: &str) -> (r: bool)
    ensures
        r == regex_matches(p@, text@),
{
    p.regex.is_match(text)
}

impl CmdlinePattern {
    /// Compiles `source`; fails with `InitError` when it is no regular expression.
    pub fn new(source: &str) -> (r: Result<CmdlinePattern, Error>)
        ensures
            r.is_ok() == regex_compiles(source@),
            r matches Ok(p) ==> p@ == source@,
            r matches Err(e) ==> e is InitError,
    {
        match compile_regex(source) {
            Ok(regex) => Ok(CmdlinePattern { source: source.to_string(), regex }),
            Err(msg) => Err(Error::InitError(msg)),
        }
    }

    /// Whether the pattern matches the command line.
    pub fn is_match(&self, cmdline: &str) -> (r: bool)
        ensures
            r == regex_matches(self@, cmdline@),
    {
        pattern_is_match(self, cmdline)
    }

    /// The source text of the pattern.
    pub fn as_str(&self) -> (r: &str)
        ensures
            r@ == self@,
    {
        self.source.as_str()
    }
}

/// How a process is recognised.
pub enum ProcessDetection {
    /// A process whose command line the pattern matches.
    Cmdline(CmdlinePattern),
    /// The process with this id; 0 stands for the root of the process tree
    /// and always matches.
    Pid(i32),
}

/// One entry of the live process listing, as read at one moment.
pub struct ProcEntry {
    /// The entry's file name.
    pub name: Vec<u8>,
    /// The null-delimited argument vector, when it could be read.
    pub cmdline: Option<Vec<u8>>,
    /// The status record, when it could be read as text.
    pub stat: Option<Vec<u8>>,
}

/// A snapshot of the process listing, in listing order.
pub struct ProcTable {
    pub entries: Vec<ProcEntry>,
}

/// The index of the first entry at or after `i` that names process `pid`.
pub open spec fn entry_of(t: Seq<ProcEntry>, pid: i32, i: int) -> Option<int>
    decreases t.len() - i,
{
    if i < 0 || i >= t.len() {
        None
    } else if entry_pid(t[i].name@) == Some(pid) {
        Some(i)
    } else {
        entry_of(t, pid, i + 1)
    }
}

/// Whether process `pid` is in the listing.
pub open spec fn alive(t: Seq<ProcEntry>, pid: i32) -> bool {
    entry_of(t, pid, 0) is Some
}

/// Whether the pattern matches the command line of the entry.
pub open spec fn entry_matches(pattern: Seq<char>, e: ProcEntry) -> bool {
    match e.cmdline {
        Some(b) => regex_matches(pattern, cmdline_text(b@)),
        None => false,
    }
}

/// The index of the first entry at or after `i` that names a process whose
/// command line the pattern matches.
pub open spec fn first_match(t: Seq<ProcEntry>, pattern: Seq<char>, i: int) -> Option<int>
    decreases t.len() - i,
{
    if i < 0 || i >= t.len() {
        None
    } else if entry_pid(t[i].name@) is Some && entry_matches(pattern, t[i]) {
        Some(i)
    } else {
        first_match(t, pattern, i + 1)
    }
}

/// Whether process `pid` is listed and its command line matches the pattern.
pub open spec fn pid_matches(t: Seq<ProcEntry>, pattern: Seq<char>, pid: i32) -> bool {
    match entry_of(t, pid, 0) {
        Some(i) => entry_matches(pattern, t[i]),
        None => false,
    }
}

/// Whether the status record of process `pid` names `ppid` as its parent.
pub open spec fn parent_is(t: Seq<ProcEntry>, pid: i32, ppid: i32) -> bool {
    match entry_of(t, pid, 0) {
        Some(i) => match t[i].stat {
            Some(s) => stat_ppid(s@) == Some(ppid),
            None => false,
        },
        None => false,
    }
}

/// Whether `pid` satisfies the ancestry that is required of it: none, or the
/// parent process `ppid`.
pub open spec fn ancestry_ok(t: Seq<ProcEntry>, pid: i32, parent: Option<i32>) -> bool {
    match parent {
        Some(ppid) => parent_is(t, pid, ppid),
        None => true,
    }
}

/// The process that a fresh search of the listing finds for the criterion.
pub open spec fn search(d: ProcessDetection, t: Seq<ProcEntry>) -> Option<i32> {
    match d {
        ProcessDetection::Cmdline(p) => match first_match(t, p@, 0) {
            Some(i) => entry_pid(t[i].name@),
            None => None,
        },
        ProcessDetection::Pid(e) => if e == 0 || alive(t, e) {
            Some(e)
        } else {
            None
        },
    }
}

/// Whether a remembered process id still meets the criterion.
pub open spec fn still_valid(d: ProcessDetection, cached: Option<i32>, t: Seq<ProcEntry>) -> bool {
    match cached {
        None => false,
        Some(p) => match d {
            ProcessDetection::Cmdline(pat) => pid_matches(t, pat@, p),
            ProcessDetection::Pid(e) => p == e && alive(t, p),
        },
    }
}

/// The process one link of a chain resolves to, given what it remembered and
/// its resolved parent (`None` for the outermost link): the remembered process
/// while it still meets the criterion and the ancestry, else the first found
/// by a search when that one meets the ancestry, else none.
pub open spec fn link_outcome(
    d: ProcessDetection,
    cached: Option<i32>,
    parent: Option<i32>,
    t: Seq<ProcEntry>,
) -> Option<i32> {
    if still_valid(d, cached, t) && ancestry_ok(t, cached->0, parent) {
        cached
    } else {
        match search(d, t) {
            Some(c) => if ancestry_ok(t, c, parent) {
                Some(c)
            } else {
                None
            },
            None => None,
        }
    }
}

/// The process that link `i` of a chain resolves to. Link 0 is the target;
/// each further link is the required parent of the one before it. A link
/// whose parent does not resolve does not resolve either.
pub open spec fn resolve_link(
    dets: Seq<ProcessDetection>,
    pids: Seq<Option<i32>>,
    t: Seq<ProcEntry>,
    i: int,
) -> Option<i32>
    decreases dets.len() - i,
{
    if i < 0 || i >= dets.len() {
        None
    } else if i + 1 == dets.len() {
        link_outcome(dets[i], pids[i], None, t)
    } else {
        match resolve_link(dets, pids, t, i + 1) {
            Some(pp) => link_outcome(dets[i], pids[i], Some(pp), t),
            None => None,
        }
    }
}

/// What link `i` remembers after a resolution: its outcome when its parent
/// resolved (or it has none), else what it remembered before.
pub open spec fn remembered_after(
    dets: Seq<ProcessDetection>,
    pids: Seq<Option<i32>>,
    t: Seq<ProcEntry>,
    i: int,
) -> Option<i32> {
    if i + 1 >= dets.len() || resolve_link(dets, pids, t, i + 1) is Some {
        resolve_link(dets, pids, t, i)
    } else {
        pids[i]
    }
}

proof fn lemma_unresolved_below(
    dets: Seq<ProcessDetection>,
    pids: Seq<Option<i32>>,
    t: Seq<ProcEntry>,
    i: int,
    j: int,
)
    requires
        0 <= j <= i < dets.len(),
        resolve_link(dets, pids, t, i) is None,
    ensures
        resolve_link(dets, pids, t, j) is None,
    decreases i - j,
{
    if j < i {
        lemma_unresolved_below(dets, pids, t, i, j + 1);
    }
}

fn find_entry(t: &ProcTable, pid: i32) -> (r: Option<usize>)
    ensures
        r matches Some(i) ==> i < t.entries@.len() && entry_of(t.entries@, pid, 0) == Some(i as int),
        r is None ==> entry_of(t.entries@, pid, 0) is None,
{
    let mut i: usize = 0;
    while i < t.entries.len()
        invariant
            i <= t.entries@.len(),
            entry_of(t.entries@, pid, 0) == entry_of(t.entries@, pid, i as int),
        decreases t.entries@.len() - i,
    {
        if parse_entry_pid(&t.entries[i].name) == Some(pid) {
            return Some(i);
        }
        i = i + 1;
    }
    None
}

fn entry_matches_exec(p: &CmdlinePattern, e: &ProcEntry) -> (r: bool)
    ensures
        r == entry_matches(p@, *e),
{
    match &e.cmdline {
        Some(b) => {
            let text = parse_cmdline(b);
            p.is_match(text.as_str())
        },
        None => false,
    }
}

/// Whether process `pid` is in the snapshot.
pub fn pid_exists(t: &ProcTable, pid: i32) -> (r: bool)
    ensures
        r == alive(t.entries@, pid),
{
    find_entry(t, pid).is_some()
}

/// Whether the snapshot's status record of `pid` names `ppid` as its parent.
pub fn has_parent(t: &ProcTable, pid: i32, ppid: i32) -> (r: bool)
    ensures
        r == parent_is(t.entries@, pid, ppid),
{
    match find_entry(t, pid) {
        Some(i) => match &t.entries[i].stat {
            Some(s) => is_parent(ppid, s),
            None => false,
        },
        None => false,
    }
}

/// The first listed process whose command line the pattern matches.
pub fn scan_proc(p: &CmdlinePattern, t: &ProcTable) -> (r: Option<i32>)
    ensures
        r == (match first_match(t.entries@, p@, 0) {
            Some(i) => entry_pid(t.entries@[i].name@),
            None => None,
        }),
{
    let mut i: usize = 0;
    while i < t.entries.len()
        invariant
            i <= t.entries@.len(),
            first_match(t.entries@, p@, 0) == first_match(t.entries@, p@, i as int),
        decreases t.entries@.len() - i,
    {
        let e = &t.entries[i];
        match parse_entry_pid(&e.name) {
            Some(pid) => {
                if entry_matches_exec(p, e) {
                    return Some(pid);
                }
            },
            None => {},
        }
        i = i + 1;
    }
    None
}

/// A chain of detection criteria: link 0 is the target process and each
/// further link the required parent of the one before. Each link remembers
/// the process it last resolved to.
pub struct ProcessDetector {
    detections: Vec<ProcessDetection>,
    pids: Vec<Option<i32>>,
}

impl ProcessDetector {
    /// The criteria, target first.
    pub closed spec fn detections(&self) -> Seq<ProcessDetection> {
        self.detections@
    }

    /// What each link remembers.
    pub closed spec fn remembered(&self) -> Seq<Option<i32>> {
        self.pids@
    }

    /// A chain has at least one link, and one remembered id per link.
    pub closed spec fn wf(&self) -> bool {
        self.detections@.len() >= 1 && self.pids@.len() == self.detections@.len()
    }

    /// A chain over the criteria, target first, remembering nothing yet.
    pub fn new(detections: Vec<ProcessDetection>) -> (r: ProcessDetector)
        requires
            detections@.len() >= 1,
        ensures
            r.wf(),
            r.detections() == detections@,
            forall|i: int| 0 <= i < r.remembered().len() ==> r.remembered()[i] is None,
    {
        let mut pids: Vec<Option<i32>> = Vec::new();
        let mut i: usize = 0;
        while i < detections.len()
            invariant
                i <= detections@.len(),
                pids@.len() == i,
                forall|j: int| 0 <= j < i ==> pids@[j] is None,
            decreases detections@.len() - i,
        {
            pids.push(None);
            i = i + 1;
        }
        ProcessDetector { detections, pids }
    }

    /// Whether what link `i` remembers still meets its criterion.
    fn valid(&self, i: usize, t: &ProcTable) -> (r: bool)
        requires
            self.wf(),
            i < self.detections@.len(),
        ensures
            r == still_valid(self.detections@[i as int], self.pids@[i as int], t.entries@),
    {
        match self.pids[i] {
            Some(pid) => match &self.detections[i] {
                ProcessDetection::Cmdline(p) => match find_entry(t, pid) {
                    Some(k) => entry_matches_exec(p, &t.entries[k]),
                    None => false,
                },
                ProcessDetection::Pid(expected) => {
                    if pid == *expected {
                        pid_exists(t, pid)
                    } else {
                        false
                    }
                },
            },
            None => false,
        }
    }

    /// Searches the snapshot for a process that meets the criterion of link `i`.
    fn find_pid(&self, i: usize, t: &ProcTable) -> (r: Option<i32>)
        requires
            self.wf(),
            i < self.detections@.len(),
        ensures
            r == search(self.detections@[i as int], t.entries@),
    {
        match &self.detections[i] {
            ProcessDetection::Cmdline(p) => scan_proc(p, t),
            ProcessDetection::Pid(pid) => {
                if *pid == 0 {
                    Some(0)
                } else if pid_exists(t, *pid) {
                    Some(*pid)
                } else {
                    None
                }
            },
        }
    }

    fn ancestry_holds(t: &ProcTable, pid: i32, parent: Option<i32>) -> (r: bool)
        ensures
            r == ancestry_ok(t.entries@, pid, parent),
    {
        match parent {
            Some(ppid) => has_parent(t, pid, ppid),
            None => true,
        }
    }

    fn resolve_one(&self, i: usize, parent: Option<i32>, t: &ProcTable) -> (r: Option<i32>)
        requires
            self.wf(),
            i < self.detections@.len(),
        ensures
            r == link_outcome(self.detections@[i as int], self.pids@[i as int], parent, t.entries@),
    {
        if self.valid(i, t) {
            let cached = self.pids[i].unwrap();
            if Self::ancestry_holds(t, cached, parent) {
                return Some(cached);
            }
        }
        match self.find_pid(i, t) {
            Some(c) => {
                if Self::ancestry_holds(t, c, parent) {
                    Some(c)
                } else {
                    None
                }
            },
            None => None,
        }
    }

    /// Resolves the target process against a snapshot of the process
    /// listing, outermost link first, and remembers each link's outcome.
    pub fn pid(&mut self, t: &ProcTable) -> (r: Option<i32>)
        requires
            old(self).wf(),
        ensures
            final(self).wf(),
            final(self).detections() == old(self).detections(),
            r == resolve_link(old(self).detections(), old(self).remembered(), t.entries@, 0),
            forall|i: int|
                0 <= i < old(self).detections().len() ==> #[trigger] final(self).remembered()[i]
                    == remembered_after(
                    old(self).detections(),
                    old(self).remembered(),
                    t.entries@,
                    i,
                ),
    {
        let ghost dets = self.detections@;
        let ghost pids0 = self.pids@;
        let n = self.detections.len();
        let mut i: usize = n;
        let mut parent: Option<i32> = None;
        while i > 0
            invariant
                self.wf(),
                self.detections@ == dets,
                dets == old(self).detections@,
                pids0 == old(self).pids@,
                n == dets.len(),
                pids0.len() == n,
                i <= n,
                i < n ==> parent == resolve_link(dets, pids0, t.entries@, i as int),
                forall|j: int| 0 <= j < i ==> self.pids@[j] == pids0[j],
                forall|j: int|
                    i <= j < n ==> #[trigger] self.pids@[j] == remembered_after(
                        dets,
                        pids0,
                        t.entries@,
                        j,
                    ),
            decreases i,
        {
            if i < n && parent.is_none() {
                proof {
                    assert forall|j: int| 0 <= j < i implies #[trigger] self.pids@[j]
                        == remembered_after(dets, pids0, t.entries@, j) by {
                        lemma_unresolved_below(dets, pids0, t.entries@, i as int, j + 1);
                    }
                    lemma_unresolved_below(dets, pids0, t.entries@, i as int, 0);
                }
                return None;
            }
            i = i - 1;
            let link_parent = if i + 1 < n {
                parent
            } else {
                None
            };
            let out = self.resolve_one(i, link_parent, t);
            self.pids.set(i, out);
            parent = out;
        }
        parent
    }
}

#[verifier::external_type_specification]
#[verifier::external_body]
pub struct ExSignal(nix::sys::signal::Signal);

#[verifier::external_type_specification]
#[verifier::external_body]
pub struct ExErrno(nix::errno::Errno);

/// Whether `nix` knows `name` as a signal name (such as `SIGHUP`).
pub uninterp spec fn signal_name_known(name: Seq<char>) -> bool;

/// Relies on `FromStr` of `nix::sys::signal::Signal`: maps a signal name of
/// the platform's table to its signal and refuses any other text.
#[verifier::external_body]
fn parse_signal(name: &str) -> (r: Result<nix::sys::signal::Signal, nix::errno::Errno>)
    ensures
        r.is_ok() == signal_name_known(name@),
{
    <nix::sys::signal::Signal as std::str::FromStr>::from_str(name)
}

/// Relies on the `Display` of `nix::errno::Errno`: the description of an error.
#[verifier::external_body]
fn errno_text(e: nix::errno::Errno) -> String {
    format!("{}", e)
}

/// A process chain and the signal that is sent to its target.
pub struct Bumper {
    process_tree: ProcessDetector,
    signal: nix::sys::signal::Signal,
}

impl Bumper {
    /// The process chain.
    pub closed spec fn tree(&self) -> ProcessDetector {
        self.process_tree
    }

    /// The signal that a bump sends.
    pub closed spec fn signal_spec(&self) -> nix::sys::signal::Signal {
        self.signal
    }

    /// The chain is well formed.
    pub closed spec fn wf(&self) -> bool {
        self.process_tree.wf()
    }

    /// A bumper over the criteria (target first) and the named signal.
    /// Fails with `InitError` when there is no criterion or the name is no
    /// signal name.
    pub fn new(process_tree: Vec<ProcessDetection>, signal: &str) -> (r: Result<Bumper, Error>)
        ensures
            r.is_ok() <==> (process_tree@.len() >= 1 && signal_name_known(signal@)),
            r matches Err(e) ==> e is InitError,
            r matches Ok(b) ==> {
                &&& b.wf()
                &&& b.tree().detections() == process_tree@
                &&& forall|i: int|
                    0 <= i < b.tree().remembered().len() ==> b.tree().remembered()[i] is None
            },
    {
        if process_tree.len() == 0 {
            return Err(Error::InitError("At least 1 process detection needs to be defined.".to_string()));
        }
        match parse_signal(signal) {
            Ok(sig) => Ok(Bumper { process_tree: ProcessDetector::new(process_tree), signal: sig }),
            Err(e) => Err(Error::InitError(errno_text(e))),
        }
    }

    /// The process that a bump signals now: the target of the chain, resolved
    /// against the snapshot; `None` when no process currently matches, in
    /// which case a bump has no effect.
    pub fn bump(&mut self, t: &ProcTable) -> (r: Option<i32>)
        requires
            old(self).wf(),
        ensures
            final(self).wf(),
            final(self).tree().detections() == old(self).tree().detections(),
            r == resolve_link(
                old(self).tree().detections(),
                old(self).tree().remembered(),
                t.entries@,
                0,
            ),
            forall|i: int|
                0 <= i < old(self).tree().detections().len() ==> #[trigger] final(self).tree().remembered()[i] == remembered_after(
                    old(self).tree().detections(),
                    old(self).tree().remembered(),
                    t.entries@,
                    i,
                ),
    {
        self.process_tree.pid(t)
    }

    /// The signal that a bump sends.
    pub fn signal(&self) -> (r: nix::sys::signal::Signal)
        ensures
            r == self.signal_spec(),
    {
        self.signal
    }

    /// What a bump reports once the signal was sent: success, or a
    /// `SignalError` carrying the delivery failure.
    pub fn delivery_result(sent: Result<(), nix::errno::Errno>) -> (r: Result<(), Error>)
        ensures
            r.is_ok() == sent.is_ok(),
            r matches Err(e) ==> e is SignalError,
    {
        match sent {
            Ok(()) => Ok(()),
            Err(e) => Err(Error::SignalError(errno_text(e))),
        }
    }
}

/// Whether entry `k` names a process whose command line the pattern matches.
pub open spec fn matching_entry(t: Seq<ProcEntry>, pattern: Seq<char>, k: int) -> bool {
    0 <= k < t.len() && entry_pid(t[k].name@) is Some && entry_matches(pattern, t[k])
}

proof fn lemma_first_match_sound(t: Seq<ProcEntry>, pattern: Seq<char>, i: int)
    requires
        0 <= i,
    ensures
        first_match(t, pattern, i) matches Some(k) ==> i <= k && matching_entry(t, pattern, k),
    decreases t.len() - i,
{
    if i < t.len() && !(entry_pid(t[i].name@) is Some && entry_matches(pattern, t[i])) {
        lemma_first_match_sound(t, pattern, i + 1);
    }
}

proof fn lemma_first_match_complete(t: Seq<ProcEntry>, pattern: Seq<char>, i: int, k: int)
    requires
        0 <= i <= k,
        matching_entry(t, pattern, k),
    ensures
        first_match(t, pattern, i) is Some,
    decreases k - i,
{
    if i < k && !(entry_pid(t[i].name@) is Some && entry_matches(pattern, t[i])) {
        lemma_first_match_complete(t, pattern, i + 1, k);
    }
}

proof fn lemma_entry_of_sound(t: Seq<ProcEntry>, pid: i32, i: int)
    requires
        0 <= i,
    ensures
        entry_of(t, pid, i) matches Some(k) ==> 0 <= k < t.len() && entry_pid(t[k].name@) == Some(
            pid,
        ),
    decreases t.len() - i,
{
    if i < t.len() && entry_pid(t[i].name@) != Some(pid) {
        lemma_entry_of_sound(t, pid, i + 1);
    }
}

/// The parent that link 0 must have: none for a chain of one link, else what
/// link 1 resolves to.
pub open spec fn target_parent(
    dets: Seq<ProcessDetection>,
    pids: Seq<Option<i32>>,
    t: Seq<ProcEntry>,
) -> Option<i32> {
    if dets.len() == 1 {
        None
    } else {
        resolve_link(dets, pids, t, 1)
    }
}

/// A pattern target is found and followed: when the listing holds processes
/// whose command line matches the target's pattern, all of them process `x`,
/// and `x` has the parent that the chain requires (which resolved), the chain
/// resolves to `x`, whatever it remembered. So a target that restarted under
/// a new id is found again under that id.
pub proof fn law_resolve_finds_target(
    dets: Seq<ProcessDetection>,
    pids: Seq<Option<i32>>,
    t: Seq<ProcEntry>,
    x: i32,
)
    requires
        dets.len() >= 1,
        pids.len() == dets.len(),
        dets[0] is Cmdline,
        exists|k: int| matching_entry(t, dets[0]->Cmdline_0@, k),
        forall|k: int| #[trigger]
            matching_entry(t, dets[0]->Cmdline_0@, k) ==> entry_pid(t[k].name@) == Some(x),
        dets.len() > 1 ==> target_parent(dets, pids, t) is Some,
        ancestry_ok(t, x, target_parent(dets, pids, t)),
    ensures
        resolve_link(dets, pids, t, 0) == Some(x),
{
    let p = dets[0]->Cmdline_0@;
    let par = target_parent(dets, pids, t);
    assert(resolve_link(dets, pids, t, 0) == link_outcome(dets[0], pids[0], par, t));
    if still_valid(dets[0], pids[0], t) && ancestry_ok(t, pids[0]->0, par) {
        let c = pids[0]->0;
        lemma_entry_of_sound(t, c, 0);
        let k = entry_of(t, c, 0)->0;
        assert(matching_entry(t, p, k));
    } else {
        let k = choose|k: int| matching_entry(t, p, k);
        lemma_first_match_complete(t, p, 0, k);
        lemma_first_match_sound(t, p, 0);
    }
}

/// A pattern target that is gone is not found: when no listed process has a
/// command line that matches the target's pattern, the chain resolves to none.
pub proof fn law_resolve_absent_target(
    dets: Seq<ProcessDetection>,
    pids: Seq<Option<i32>>,
    t: Seq<ProcEntry>,
)
    requires
        dets.len() >= 1,
        pids.len() == dets.len(),
        dets[0] is Cmdline,
        forall|k: int| !#[trigger] matching_entry(t, dets[0]->Cmdline_0@, k),
    ensures
        resolve_link(dets, pids, t, 0) is None,
{
    let p = dets[0]->Cmdline_0@;
    lemma_first_match_sound(t, p, 0);
    if let Some(c) = pids[0] {
        lemma_entry_of_sound(t, c, 0);
        if let Some(k) = entry_of(t, c, 0) {
            assert(!matching_entry(t, p, k));
        }
    }
}

/// Ancestry is enforced: when the chain requires a parent, that parent
/// resolves to `pp`, and no listed process whose command line matches the
/// target's pattern has `pp` as its parent, the chain resolves to none.
pub proof fn law_resolve_wrong_parent(
    dets: Seq<ProcessDetection>,
    pids: Seq<Option<i32>>,
    t: Seq<ProcEntry>,
    pp: i32,
)
    requires
        dets.len() >= 2,
        pids.len() == dets.len(),
        dets[0] is Cmdline,
        resolve_link(dets, pids, t, 1) == Some(pp),
        forall|k: int| #[trigger]
            matching_entry(t, dets[0]->Cmdline_0@, k) ==> !parent_is(t, entry_pid(t[k].name@)->0, pp),
    ensures
        resolve_link(dets, pids, t, 0) is None,
{
    let p = dets[0]->Cmdline_0@;
    lemma_first_match_sound(t, p, 0);
    if let Some(c) = pids[0] {
        lemma_entry_of_sound(t, c, 0);
        if let Some(k) = entry_of(t, c, 0) {
            if still_valid(dets[0], pids[0], t) {
                assert(matching_entry(t, p, k));
            }
        }
    }
}

} // verus!

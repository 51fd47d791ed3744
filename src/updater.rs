use vstd::prelude::*;
use vstd::string::*;
use vstd::utf8::*;
use crate::bumper::{Bumper, ProcTable, resolve_link, remembered_after};
use crate::operator;
use crate::keyed::{has_key, insert_keyed, keys_distinct, kept_or_new, value_of};

verus! {

/// The SHA-1 digest of the bytes, written as lowercase hexadecimal.
pub uninterp spec fn sha1_hex(data: Seq<u8>) -> Seq<char>;

/// Relies on `sha1::Sha1` (`update`, then `digest().to_string()`): the digest
/// of the bytes as 40 lowercase hexadecimal digits.
#[verifier::external_body]
fn sha1_digest(data: &[u8]) -> (r: String)
    ensures
        r@ == sha1_hex(data@),
        r@.len() == 40,
{
    let mut sha = sha1::Sha1::new();
    sha.update(data);
    sha.digest().to_string()
}

/// The bytes that a file with this text holds.
pub open spec fn text_bytes(s: Seq<char>) -> Seq<u8> {
    encode_utf8(s)
}

/// The content of a configuration file and the checksum of that content.
pub struct ConfigFile {
    pub content: String,
    pub digest: String,
}

/// Whether the digest is the checksum of the content.
pub open spec fn digest_matches(f: ConfigFile) -> bool {
    f.digest@ == sha1_hex(text_bytes(f.content@))
}

/// A prepared set of configuration files: distinct names, each with the
/// checksum of its content.
pub struct ConfigFiles {
    files: Vec<(String, ConfigFile)>,
}

impl ConfigFiles {
    /// The files, in the order they were prepared.
    pub closed spec fn entries(&self) -> Seq<(String, ConfigFile)> {
        self.files@
    }

    /// Distinct names, each file with the checksum of its content.
    pub closed spec fn wf(&self) -> bool {
        &&& keys_distinct(self.files@)
        &&& forall|i: int| 0 <= i < self.files@.len() ==> digest_matches(#[trigger] self.files@[i].1)
    }

    /// The number of files.
    pub fn len(&self) -> (r: usize)
        ensures
            r == self.entries().len(),
    {
        self.files.len()
    }

    /// The name of file `i`.
    pub fn name(&self, i: usize) -> (r: &String)
        requires
            i < self.entries().len(),
        ensures
            r == self.entries()[i as int].0,
    {
        &self.files[i].0
    }

    /// File `i`.
    pub fn file(&self, i: usize) -> (r: &ConfigFile)
        requires
            i < self.entries().len(),
        ensures
            r == self.entries()[i as int].1,
    {
        &self.files[i].1
    }

    /// Whether a file has the name.
    pub fn contains_key(&self, name: &String) -> (r: bool)
        ensures
            r == has_key(self.entries(), name@),
    {
        let mut i: usize = 0;
        while i < self.files.len()
            invariant
                i <= self.files@.len(),
                forall|j: int| 0 <= j < i ==> self.files@[j].0@ != name@,
            decreases self.files@.len() - i,
        {
            if self.files[i].0 == *name {
                return true;
            }
            i = i + 1;
        }
        false
    }
}

/// The text that the last pair among the first `k` with that name gives.
pub open spec fn last_value(data: Seq<(String, String)>, k: int, name: Seq<char>) -> Option<Seq<char>>
    decreases k,
{
    if k <= 0 {
        None
    } else if data[k - 1].0@ == name {
        Some(data[k - 1].1@)
    } else {
        last_value(data, k - 1, name)
    }
}

/// Turns the name-to-text pairs of a configuration object into a prepared
/// file set; where a name repeats, the last pair wins.
pub fn prepare_files(data: &Vec<(String, String)>) -> (r: ConfigFiles)
    ensures
        r.wf(),
        forall|n: Seq<char>|
            #[trigger] has_key(r.entries(), n) == (last_value(data@, data@.len() as int, n) is Some),
        forall|n: Seq<char>|
            #[trigger] has_key(r.entries(), n) ==> value_of(r.entries(), n)->0.content@ == last_value(
                data@,
                data@.len() as int,
                n,
            )->0,
{
    let mut files: Vec<(String, ConfigFile)> = Vec::new();
    let mut k: usize = 0;
    while k < data.len()
        invariant
            k <= data@.len(),
            keys_distinct(files@),
            forall|i: int| 0 <= i < files@.len() ==> digest_matches(#[trigger] files@[i].1),
            forall|n: Seq<char>|
                #[trigger] has_key(files@, n) == (last_value(data@, k as int, n) is Some),
            forall|n: Seq<char>|
                #[trigger] has_key(files@, n) ==> value_of(files@, n)->0.content@ == last_value(
                    data@,
                    k as int,
                    n,
                )->0,
        decreases data@.len() - k,
    {
        let name = data[k].0.clone();
        let content = data[k].1.clone();
        let digest = sha1_digest(content.as_str().as_bytes());
        let file = ConfigFile { content, digest };
        let ghost f0 = files@;
        let ghost nm = name@;
        let _ = insert_keyed(&mut files, name, file);
        proof {
            assert forall|n: Seq<char>| #[trigger] has_key(files@, n) == if n == nm {
                true
            } else {
                has_key(f0, n)
            } by {
                if n != nm {
                    assert(value_of(files@, n) == value_of(f0, n));
                } else {
                    assert(value_of(files@, n) is Some);
                }
            }
            assert forall|i: int| 0 <= i < files@.len() implies digest_matches(#[trigger] files@[i].1) by {
                if files@[i].1 != file {
                    let j = choose|j: int| 0 <= j < f0.len() && f0[j] == files@[i];
                    assert(digest_matches(f0[j].1));
                }
            }
        }
        k = k + 1;
    }
    ConfigFiles { files }
}

/// A file that a reconcile writes, overwriting what is there.
pub struct FileWrite {
    pub name: String,
    pub content: String,
}

/// What a reconcile does to the directory: the files it removes, then the
/// files it writes.
pub struct ReconcilePlan {
    pub deletions: Vec<String>,
    pub writes: Vec<FileWrite>,
}

/// The names of the plan's removals.
pub open spec fn plan_deletions(p: ReconcilePlan) -> Seq<Seq<char>> {
    p.deletions@.map_values(|s: String| s@)
}

/// The names and texts of the plan's writes.
pub open spec fn plan_writes(p: ReconcilePlan) -> Seq<(Seq<char>, Seq<char>)> {
    p.writes@.map_values(|w: FileWrite| (w.name@, w.content@))
}

/// The names among the first `k` old files that the new set (if any) lacks,
/// in order.
pub open spec fn stale_names(
    old: Seq<(String, ConfigFile)>,
    new: Option<Seq<(String, ConfigFile)>>,
    k: int,
) -> Seq<Seq<char>>
    decreases k,
{
    if k <= 0 {
        Seq::empty()
    } else {
        let rest = stale_names(old, new, k - 1);
        let n = old[k - 1].0@;
        if new matches Some(s) && has_key(s, n) {
            rest
        } else {
            rest.push(n)
        }
    }
}

/// What was found on disk for new file `i`: its bytes, or nothing when it is
/// absent or could not be read.
pub open spec fn observed_at(obs: Seq<Option<Vec<u8>>>, i: int) -> Option<Seq<u8>> {
    if 0 <= i < obs.len() {
        match obs[i] {
            Some(b) => Some(b@),
            None => None,
        }
    } else {
        None
    }
}

/// Whether a file is written: nothing was found, or what was found has
/// another checksum.
pub open spec fn needs_write(f: ConfigFile, seen: Option<Seq<u8>>) -> bool {
    match seen {
        Some(b) => sha1_hex(b) != f.digest@,
        None => true,
    }
}

/// The names and texts of the first `k` new files that need a write, in order.
pub open spec fn pending_writes(
    new: Seq<(String, ConfigFile)>,
    obs: Seq<Option<Vec<u8>>>,
    k: int,
) -> Seq<(Seq<char>, Seq<char>)>
    decreases k,
{
    if k <= 0 {
        Seq::empty()
    } else {
        let rest = pending_writes(new, obs, k - 1);
        if needs_write(new[k - 1].1, observed_at(obs, k - 1)) {
            rest.push((new[k - 1].0@, new[k - 1].1.content@))
        } else {
            rest
        }
    }
}

/// The entries of an optional file set.
pub open spec fn entries_of(f: Option<&ConfigFiles>) -> Option<Seq<(String, ConfigFile)>> {
    match f {
        Some(s) => Some(s.entries()),
        None => None,
    }
}

/// The removals of a reconcile from `old` to `new`.
pub open spec fn deletions_for(old: Option<&ConfigFiles>, new: Option<&ConfigFiles>) -> Seq<Seq<char>> {
    match old {
        Some(o) => stale_names(o.entries(), entries_of(new), o.entries().len() as int),
        None => Seq::empty(),
    }
}

/// The writes of a reconcile to `new`, given what was found on disk.
pub open spec fn writes_for(new: Option<&ConfigFiles>, obs: Seq<Option<Vec<u8>>>) -> Seq<(Seq<char>, Seq<char>)> {
    match new {
        Some(n) => pending_writes(n.entries(), obs, n.entries().len() as int),
        None => Seq::empty(),
    }
}

/// Whether the directory on disk is usable.
pub struct DirStatus {
    pub is_dir: bool,
    pub readonly: bool,
}

/// Materialises prepared file sets into a base directory and bumps a process
/// when a file was written.
pub struct ConfigUpdater {
    dir: String,
    bumper: Option<Bumper>,
}

impl ConfigUpdater {
    /// The base directory.
    pub closed spec fn dir_spec(&self) -> Seq<char> {
        self.dir@
    }

    /// The bumper, when one is configured.
    pub closed spec fn bumper_spec(&self) -> Option<Bumper> {
        self.bumper
    }

    /// A configured bumper is well formed.
    pub closed spec fn wf(&self) -> bool {
        self.bumper matches Some(b) ==> b.wf()
    }

    /// An updater over `base_dir`, given what inspecting it found. Fails with
    /// `OperatorError` when it could not be inspected, is no directory or is
    /// read-only.
    pub fn new(base_dir: &str, bumper: Option<Bumper>, status: Result<DirStatus, String>) -> (r:
        Result<Self, operator::Error>)
        requires
            bumper matches Some(b) ==> b.wf(),
        ensures
            r.is_ok() == (status matches Ok(st) && st.is_dir && !st.readonly),
            r matches Ok(u) ==> u.wf() && u.dir_spec() == base_dir@ && u.bumper_spec() == bumper,
    {
        let base = base_dir.to_owned();
        match status {
            Err(e) => {
                let msg = "Failed to check the validity of the base directory `".to_owned().concat(
                    base.as_str(),
                ).concat("`: ").concat(e.as_str());
                Err(operator::Error::OperatorError(msg))
            },
            Ok(st) => {
                if !st.is_dir || st.readonly {
                    let msg = "The base directory `".to_owned().concat(base.as_str()).concat(
                        "` needs to exist and be writable",
                    );
                    Err(operator::Error::OperatorError(msg))
                } else {
                    Ok(ConfigUpdater { dir: base, bumper })
                }
            },
        }
    }

    /// The base directory.
    pub fn dir(&self) -> (r: &String)
        ensures
            r@ == self.dir_spec(),
    {
        &self.dir
    }

    /// Whether a bumper is configured.
    pub fn has_bumper(&self) -> (r: bool)
        ensures
            r == (self.bumper_spec() is Some),
    {
        self.bumper.is_some()
    }

    /// The signal that a bump sends, when a bumper is configured.
    pub fn signal(&self) -> (r: Option<nix::sys::signal::Signal>)
        ensures
            r is Some == (self.bumper_spec() is Some),
            r matches Some(s) ==> s == self.bumper_spec()->0.signal_spec(),
    {
        match &self.bumper {
            Some(b) => Some(b.signal()),
            None => None,
        }
    }

    /// Prepares the name-to-text pairs of a configuration object.
    pub fn prepare(&self, data: &Vec<(String, String)>) -> (r: ConfigFiles)
        ensures
            r.wf(),
            forall|n: Seq<char>|
                #[trigger] has_key(r.entries(), n) == (last_value(data@, data@.len() as int, n) is Some),
            forall|n: Seq<char>|
                #[trigger] has_key(r.entries(), n) ==> value_of(r.entries(), n)->0.content@
                    == last_value(data@, data@.len() as int, n)->0,
    {
        prepare_files(data)
    }

    /// Plans a reconcile from `old` to `new`. `observed[i]` holds the bytes
    /// found on disk for file `i` of `new`, or nothing when the file is absent
    /// or unreadable. Every file of `old` that `new` lacks is removed (all of
    /// them when `new` is absent); every file of `new` is written unless the
    /// bytes found have the expected checksum.
    pub fn reconcile(
        &self,
        old: Option<&ConfigFiles>,
        new: Option<&ConfigFiles>,
        observed: &Vec<Option<Vec<u8>>>,
    ) -> (r: ReconcilePlan)
        ensures
            plan_deletions(r) == deletions_for(old, new),
            plan_writes(r) == writes_for(new, observed@),
    {
        let mut deletions: Vec<String> = Vec::new();
        match old {
            Some(o) => {
                let mut k: usize = 0;
                while k < o.len()
                    invariant
                        k <= o.entries().len(),
                        deletions@.map_values(|s: String| s@) == stale_names(
                            o.entries(),
                            entries_of(new),
                            k as int,
                        ),
                    decreases o.entries().len() - k,
                {
                    let name = o.name(k);
                    let keep = match new {
                        Some(n) => n.contains_key(name),
                        None => false,
                    };
                    if !keep {
                        deletions.push(name.clone());
                    }
                    k = k + 1;
                    proof {
                        assert(deletions@.map_values(|s: String| s@) =~= stale_names(
                            o.entries(),
                            entries_of(new),
                            k as int,
                        ));
                    }
                }
            },
            None => {
                assert(deletions@.map_values(|s: String| s@) =~= Seq::<Seq<char>>::empty());
            },
        }
        let mut writes: Vec<FileWrite> = Vec::new();
        match new {
            Some(n) => {
                let mut k: usize = 0;
                while k < n.len()
                    invariant
                        k <= n.entries().len(),
                        writes@.map_values(|w: FileWrite| (w.name@, w.content@)) == pending_writes(
                            n.entries(),
                            observed@,
                            k as int,
                        ),
                    decreases n.entries().len() - k,
                {
                    let f = n.file(k);
                    let write = if k < observed.len() {
                        match &observed[k] {
                            Some(bytes) => sha1_digest(bytes.as_slice()) != f.digest,
                            None => true,
                        }
                    } else {
                        true
                    };
                    if write {
                        writes.push(FileWrite { name: n.name(k).clone(), content: f.content.clone() });
                    }
                    k = k + 1;
                    proof {
                        assert(writes@.map_values(|w: FileWrite| (w.name@, w.content@)) =~= pending_writes(
                            n.entries(),
                            observed@,
                            k as int,
                        ));
                    }
                }
            },
            None => {
                assert(writes@.map_values(|w: FileWrite| (w.name@, w.content@)) =~= Seq::<(Seq<char>, Seq<char>)>::empty());
            },
        }
        ReconcilePlan { deletions, writes }
    }

    /// The process to bump once the planned writes were carried out: when at
    /// least one write succeeded and a bumper is configured, the target its
    /// chain resolves to in the snapshot (`None` when no process matches);
    /// otherwise none, and nothing changes.
    pub fn bump_target(&mut self, updated: bool, t: &ProcTable) -> (r: Option<i32>)
        requires
            old(self).wf(),
        ensures
            final(self).wf(),
            final(self).dir_spec() == old(self).dir_spec(),
            !updated || old(self).bumper_spec() is None ==> r is None && final(self).bumper_spec()
                == old(self).bumper_spec(),
            updated && old(self).bumper_spec() is Some ==> {
                let b0 = old(self).bumper_spec()->0;
                let b1 = final(self).bumper_spec()->0;
                &&& final(self).bumper_spec() is Some
                &&& r == resolve_link(b0.tree().detections(), b0.tree().remembered(), t.entries@, 0)
                &&& b1.tree().detections() == b0.tree().detections()
                &&& forall|i: int|
                    0 <= i < b0.tree().detections().len() ==> #[trigger] b1.tree().remembered()[i]
                        == remembered_after(b0.tree().detections(), b0.tree().remembered(), t.entries@, i)
            },
    {
        if !updated {
            return None;
        }
        match self.bumper.take() {
            Some(mut b) => {
                let r = b.bump(t);
                self.bumper = Some(b);
                r
            },
            None => None,
        }
    }
}

/// What a reconcile reports once the bump signal was sent: success, or an
/// `OperatorError` describing the delivery failure.
pub fn bump_result(sent: Result<(), nix::errno::Errno>) -> (r: Result<(), operator::Error>)
    ensures
        r.is_ok() == sent.is_ok(),
{
    match Bumper::delivery_result(sent) {
        Ok(()) => Ok(()),
        Err(e) => {
            let msg = match e {
                crate::bumper::Error::InitError(m) => m,
                crate::bumper::Error::ProcError(m) => m,
                crate::bumper::Error::SignalError(m) => "Process signalling error: ".to_owned().concat(
                    m.as_str(),
                ),
            };
            Err(operator::Error::OperatorError(msg))
        },
    }
}

/// What the directory holds under a name.
pub open spec fn disk_get(d: Map<Seq<char>, Seq<u8>>, n: Seq<char>) -> Option<Seq<u8>> {
    if d.contains_key(n) {
        Some(d[n])
    } else {
        None
    }
}

/// The directory after the removals succeeded.
pub open spec fn apply_deletions(d: Map<Seq<char>, Seq<u8>>, names: Seq<Seq<char>>) -> Map<
    Seq<char>,
    Seq<u8>,
>
    decreases names.len(),
{
    if names.len() == 0 {
        d
    } else {
        apply_deletions(d, names.drop_last()).remove(names.last())
    }
}

/// The directory after the writes succeeded.
pub open spec fn apply_writes(d: Map<Seq<char>, Seq<u8>>, ws: Seq<(Seq<char>, Seq<char>)>) -> Map<
    Seq<char>,
    Seq<u8>,
>
    decreases ws.len(),
{
    if ws.len() == 0 {
        d
    } else {
        apply_writes(d, ws.drop_last()).insert(ws.last().0, text_bytes(ws.last().1))
    }
}

/// The directory after a reconcile from `old` to `new` was carried out with
/// every removal and write succeeding.
pub open spec fn after_reconcile(
    d: Map<Seq<char>, Seq<u8>>,
    old: Option<&ConfigFiles>,
    new: Option<&ConfigFiles>,
    obs: Seq<Option<Vec<u8>>>,
) -> Map<Seq<char>, Seq<u8>> {
    apply_writes(apply_deletions(d, deletions_for(old, new)), writes_for(new, obs))
}

/// Whether `obs` is what inspecting the directory finds for the new files.
pub open spec fn observes(obs: Seq<Option<Vec<u8>>>, new: Option<&ConfigFiles>, d: Map<Seq<char>, Seq<u8>>) -> bool {
    match new {
        Some(n) => forall|i: int|
            0 <= i < n.entries().len() ==> #[trigger] observed_at(obs, i) == disk_get(
                d,
                n.entries()[i].0@,
            ),
        None => true,
    }
}

/// Whether every file on disk that has the checksum of a new file's content
/// holds that content (no checksum collision).
pub open spec fn checksums_faithful(new: &ConfigFiles, d: Map<Seq<char>, Seq<u8>>) -> bool {
    forall|i: int|
        0 <= i < new.entries().len() && d.contains_key(#[trigger] new.entries()[i].0@) && sha1_hex(
            d[new.entries()[i].0@],
        ) == sha1_hex(text_bytes(new.entries()[i].1.content@)) ==> d[new.entries()[i].0@]
            == text_bytes(new.entries()[i].1.content@)
}

proof fn lemma_deletions(d: Map<Seq<char>, Seq<u8>>, names: Seq<Seq<char>>, n: Seq<char>)
    ensures
        disk_get(apply_deletions(d, names), n) == if names.contains(n) {
            None
        } else {
            disk_get(d, n)
        },
    decreases names.len(),
{
    if names.len() > 0 {
        lemma_deletions(d, names.drop_last(), n);
        if names.drop_last().contains(n) {
            let j = choose|j: int| 0 <= j < names.drop_last().len() && names.drop_last()[j] == n;
            assert(names[j] == n);
        }
        if names.contains(n) && n != names.last() {
            let j = choose|j: int| 0 <= j < names.len() && names[j] == n;
            assert(names.drop_last()[j] == n);
        }
        assert(names[names.len() - 1] == names.last());
    }
}

proof fn lemma_stale_contains(
    old: Seq<(String, ConfigFile)>,
    new: Option<Seq<(String, ConfigFile)>>,
    k: int,
    n: Seq<char>,
)
    requires
        0 <= k <= old.len(),
    ensures
        stale_names(old, new, k).contains(n) <==> (exists|i: int| 0 <= i < k && old[i].0@ == n)
            && !(new matches Some(s) && has_key(s, n)),
    decreases k,
{
    if k > 0 {
        lemma_stale_contains(old, new, k - 1, n);
        let rest = stale_names(old, new, k - 1);
        let cur = stale_names(old, new, k);
        if rest.contains(n) {
            let j = choose|j: int| 0 <= j < rest.len() && rest[j] == n;
            assert(cur[j] == n);
        }
        if cur.contains(n) && !rest.contains(n) {
            assert(old[k - 1].0@ == n);
        }
        if (exists|i: int| 0 <= i < k && old[i].0@ == n) && !(new matches Some(s) && has_key(s, n)) {
            if !(exists|i: int| 0 <= i < k - 1 && old[i].0@ == n) {
                assert(old[k - 1].0@ == n);
                assert(cur[cur.len() - 1] == n);
            }
        }
    }
}

/// Whether one of the first `k` new files is named `n` and needs a write.
pub open spec fn written_among(new: Seq<(String, ConfigFile)>, obs: Seq<Option<Vec<u8>>>, k: int, n: Seq<char>) -> bool {
    exists|i: int| 0 <= i < k && new[i].0@ == n && needs_write(new[i].1, observed_at(obs, i))
}

proof fn lemma_writes(
    d: Map<Seq<char>, Seq<u8>>,
    new: Seq<(String, ConfigFile)>,
    obs: Seq<Option<Vec<u8>>>,
    k: int,
)
    requires
        keys_distinct(new),
        0 <= k <= new.len(),
    ensures
        forall|i: int|
            0 <= i < k && needs_write(new[i].1, observed_at(obs, i)) ==> #[trigger] disk_get(
                apply_writes(d, pending_writes(new, obs, k)),
                new[i].0@,
            ) == Some(text_bytes(new[i].1.content@)),
        forall|n: Seq<char>|
            !written_among(new, obs, k, n) ==> #[trigger] disk_get(
                apply_writes(d, pending_writes(new, obs, k)),
                n,
            ) == disk_get(d, n),
        forall|j: int|
            0 <= j < pending_writes(new, obs, k).len() ==> written_among(
                new,
                obs,
                k,
                #[trigger] pending_writes(new, obs, k)[j].0,
            ),
    decreases k,
{
    if k > 0 {
        lemma_writes(d, new, obs, k - 1);
        let rest = pending_writes(new, obs, k - 1);
        let cur = pending_writes(new, obs, k);
        if needs_write(new[k - 1].1, observed_at(obs, k - 1)) {
            assert(cur.drop_last() =~= rest);
        }
        assert forall|i: int|
            0 <= i < k && needs_write(new[i].1, observed_at(obs, i)) implies #[trigger] disk_get(
            apply_writes(d, cur),
            new[i].0@,
        ) == Some(text_bytes(new[i].1.content@)) by {
            if i < k - 1 && needs_write(new[k - 1].1, observed_at(obs, k - 1)) {
                assert(new[i].0@ != new[k - 1].0@);
            }
        }
        assert forall|n: Seq<char>| !written_among(new, obs, k, n) implies #[trigger] disk_get(
            apply_writes(d, cur),
            n,
        ) == disk_get(d, n) by {
            if written_among(new, obs, k - 1, n) {
                let i = choose|i: int|
                    0 <= i < k - 1 && new[i].0@ == n && needs_write(new[i].1, observed_at(obs, i));
                assert(written_among(new, obs, k, n));
            }
            assert(disk_get(apply_writes(d, rest), n) == disk_get(d, n));
            if needs_write(new[k - 1].1, observed_at(obs, k - 1)) {
                if n == new[k - 1].0@ {
                    assert(written_among(new, obs, k, n));
                }
                assert(cur.drop_last() =~= rest);
                assert(apply_writes(d, cur) == apply_writes(d, rest).insert(
                    new[k - 1].0@,
                    text_bytes(new[k - 1].1.content@),
                ));
            }
        }
        assert forall|j: int| 0 <= j < cur.len() implies written_among(
            new,
            obs,
            k,
            #[trigger] cur[j].0,
        ) by {
            if j < rest.len() {
                assert(cur[j] == rest[j]);
                let i = choose|i: int|
                    0 <= i < k - 1 && new[i].0@ == rest[j].0 && needs_write(
                        new[i].1,
                        observed_at(obs, i),
                    );
                assert(0 <= i < k);
            } else {
                assert(cur[j].0 == new[k - 1].0@);
            }
        }
    }
}

proof fn lemma_written_unique(new: Seq<(String, ConfigFile)>, obs: Seq<Option<Vec<u8>>>, i: int)
    requires
        keys_distinct(new),
        0 <= i < new.len(),
        !needs_write(new[i].1, observed_at(obs, i)),
    ensures
        !written_among(new, obs, new.len() as int, new[i].0@),
{
    if written_among(new, obs, new.len() as int, new[i].0@) {
        let j = choose|j: int|
            0 <= j < new.len() && new[j].0@ == new[i].0@ && needs_write(new[j].1, observed_at(obs, j));
        assert(j != i);
    }
}

/// Creating materialises the set: once a reconcile from nothing to `new` is
/// carried out, every file of `new` holds its content byte for byte, and
/// nothing else in the directory changed. (A file that is left because it
/// already has the expected checksum is taken to hold the content: the law
/// assumes no checksum collision.)
pub proof fn law_create_materializes(new: &ConfigFiles, obs: Seq<Option<Vec<u8>>>, d: Map<Seq<char>, Seq<u8>>)
    requires
        new.wf(),
        observes(obs, Some(new), d),
        checksums_faithful(new, d),
    ensures
        forall|i: int|
            0 <= i < new.entries().len() ==> #[trigger] disk_get(
                after_reconcile(d, None, Some(new), obs),
                new.entries()[i].0@,
            ) == Some(text_bytes(new.entries()[i].1.content@)),
        forall|n: Seq<char>|
            !has_key(new.entries(), n) ==> #[trigger] disk_get(
                after_reconcile(d, None, Some(new), obs),
                n,
            ) == disk_get(d, n),
{
    let s = new.entries();
    let obs_d = apply_deletions(d, deletions_for(None, Some(new)));
    assert(obs_d == d);
    lemma_writes(d, s, obs, s.len() as int);
    assert forall|i: int| 0 <= i < s.len() implies #[trigger] disk_get(
        after_reconcile(d, None, Some(new), obs),
        s[i].0@,
    ) == Some(text_bytes(s[i].1.content@)) by {
        assert(observed_at(obs, i) == disk_get(d, s[i].0@));
        assert(digest_matches(s[i].1));
        if !needs_write(s[i].1, observed_at(obs, i)) {
            lemma_written_unique(s, obs, i);
        }
    }
    assert forall|n: Seq<char>| !has_key(s, n) implies #[trigger] disk_get(
        after_reconcile(d, None, Some(new), obs),
        n,
    ) == disk_get(d, n) by {
        if written_among(s, obs, s.len() as int, n) {
            let i = choose|i: int| 0 <= i < s.len() && s[i].0@ == n && needs_write(s[i].1, observed_at(obs, i));
            assert(has_key(s, n));
        }
    }
}

/// Updating converges: once a reconcile from `old` to `new` is carried out,
/// every file of `new` holds its content, every file of `old` that `new`
/// lacks is gone, every other name is as it was, and a file of `new` whose
/// bytes on disk already had its checksum is not written (it is untouched).
pub proof fn law_update_converges(
    old: &ConfigFiles,
    new: &ConfigFiles,
    obs: Seq<Option<Vec<u8>>>,
    d: Map<Seq<char>, Seq<u8>>,
)
    requires
        new.wf(),
        observes(obs, Some(new), d),
        checksums_faithful(new, d),
    ensures
        forall|i: int|
            0 <= i < new.entries().len() ==> #[trigger] disk_get(
                after_reconcile(d, Some(old), Some(new), obs),
                new.entries()[i].0@,
            ) == Some(text_bytes(new.entries()[i].1.content@)),
        forall|n: Seq<char>|
            has_key(old.entries(), n) && !has_key(new.entries(), n) ==> !#[trigger] after_reconcile(
                d,
                Some(old),
                Some(new),
                obs,
            ).contains_key(n),
        forall|n: Seq<char>|
            !has_key(old.entries(), n) && !has_key(new.entries(), n) ==> #[trigger] disk_get(
                after_reconcile(d, Some(old), Some(new), obs),
                n,
            ) == disk_get(d, n),
        forall|i: int, j: int|
            0 <= i < new.entries().len() && d.contains_key(new.entries()[i].0@) && sha1_hex(
                d[new.entries()[i].0@],
            ) == new.entries()[i].1.digest@ && 0 <= j < writes_for(Some(new), obs).len()
                ==> #[trigger] writes_for(Some(new), obs)[j].0 != #[trigger] new.entries()[i].0@,
{
    let s = new.entries();
    let o = old.entries();
    let dels = deletions_for(Some(old), Some(new));
    let dd = apply_deletions(d, dels);
    lemma_writes(dd, s, obs, s.len() as int);
    assert forall|n: Seq<char>| #[trigger] disk_get(dd, n) == if dels.contains(n) {
        None
    } else {
        disk_get(d, n)
    } by {
        lemma_deletions(d, dels, n);
    }
    assert forall|n: Seq<char>| has_key(s, n) implies !dels.contains(n) by {
        lemma_stale_contains(o, Some(s), o.len() as int, n);
    }
    assert forall|i: int| 0 <= i < s.len() implies #[trigger] disk_get(
        after_reconcile(d, Some(old), Some(new), obs),
        s[i].0@,
    ) == Some(text_bytes(s[i].1.content@)) by {
        assert(has_key(s, s[i].0@));
        assert(observed_at(obs, i) == disk_get(d, s[i].0@));
        assert(digest_matches(s[i].1));
        if !needs_write(s[i].1, observed_at(obs, i)) {
            lemma_written_unique(s, obs, i);
        }
    }
    assert forall|n: Seq<char>| !has_key(s, n) implies #[trigger] disk_get(
        after_reconcile(d, Some(old), Some(new), obs),
        n,
    ) == disk_get(dd, n) by {
        if written_among(s, obs, s.len() as int, n) {
            let i = choose|i: int| 0 <= i < s.len() && s[i].0@ == n && needs_write(s[i].1, observed_at(obs, i));
            assert(has_key(s, n));
        }
    }
    assert forall|n: Seq<char>| has_key(o, n) && !has_key(s, n) implies !#[trigger] after_reconcile(
        d,
        Some(old),
        Some(new),
        obs,
    ).contains_key(n) by {
        lemma_stale_contains(o, Some(s), o.len() as int, n);
        let i = choose|i: int| 0 <= i < o.len() && o[i].0@ == n;
        assert(exists|i: int| 0 <= i < o.len() as int && o[i].0@ == n);
        assert(dels.contains(n));
        assert(disk_get(dd, n) is None);
        assert(disk_get(after_reconcile(d, Some(old), Some(new), obs), n) == disk_get(dd, n));
    }
    assert forall|n: Seq<char>| !has_key(o, n) && !has_key(s, n) implies #[trigger] disk_get(
        after_reconcile(d, Some(old), Some(new), obs),
        n,
    ) == disk_get(d, n) by {
        lemma_stale_contains(o, Some(s), o.len() as int, n);
        if exists|i: int| 0 <= i < o.len() as int && o[i].0@ == n {
            let i = choose|i: int| 0 <= i < o.len() as int && o[i].0@ == n;
            assert(has_key(o, n));
        }
    }
    assert forall|i: int, j: int|
        0 <= i < s.len() && d.contains_key(s[i].0@) && sha1_hex(d[s[i].0@]) == s[i].1.digest@ && 0 <= j
            < writes_for(Some(new), obs).len() implies #[trigger] writes_for(Some(new), obs)[j].0
        != #[trigger] s[i].0@ by {
        assert(observed_at(obs, i) == disk_get(d, s[i].0@));
        lemma_written_unique(s, obs, i);
    }
}

proof fn lemma_no_writes(new: Seq<(String, ConfigFile)>, obs: Seq<Option<Vec<u8>>>, k: int)
    requires
        0 <= k <= new.len(),
        forall|i: int| 0 <= i < k ==> !needs_write(#[trigger] new[i].1, observed_at(obs, i)),
    ensures
        pending_writes(new, obs, k).len() == 0,
    decreases k,
{
    if k > 0 {
        lemma_no_writes(new, obs, k - 1);
        assert(!needs_write(new[k - 1].1, observed_at(obs, k - 1)));
    }
}

/// Reconciling is idempotent: once a reconcile from `old` to `new` is carried
/// out, planning the same reconcile again against the resulting directory
/// writes nothing (so no bump follows) and leaves the directory as it is.
pub proof fn law_reconcile_idempotent(
    old: Option<&ConfigFiles>,
    new: Option<&ConfigFiles>,
    obs1: Seq<Option<Vec<u8>>>,
    obs2: Seq<Option<Vec<u8>>>,
    d: Map<Seq<char>, Seq<u8>>,
)
    requires
        new matches Some(n) ==> n.wf(),
        observes(obs1, new, d),
        observes(obs2, new, after_reconcile(d, old, new, obs1)),
    ensures
        writes_for(new, obs2).len() == 0,
        after_reconcile(after_reconcile(d, old, new, obs1), old, new, obs2) == after_reconcile(
            d,
            old,
            new,
            obs1,
        ),
{
    let d1 = after_reconcile(d, old, new, obs1);
    let dels = deletions_for(old, new);
    let dd = apply_deletions(d, dels);
    assert forall|n: Seq<char>| #[trigger] disk_get(dd, n) == if dels.contains(n) {
        None
    } else {
        disk_get(d, n)
    } by {
        lemma_deletions(d, dels, n);
    }
    // A removed name is not a name of the new set.
    assert forall|n: Seq<char>| dels.contains(n) implies !(new matches Some(ns) && has_key(
        ns.entries(),
        n,
    )) by {
        if let Some(o) = old {
            lemma_stale_contains(o.entries(), entries_of(new), o.entries().len() as int, n);
        }
    }
    match new {
        Some(ns) => {
            let s = ns.entries();
            lemma_writes(dd, s, obs1, s.len() as int);
            assert forall|i: int| 0 <= i < s.len() implies !needs_write(
                #[trigger] s[i].1,
                observed_at(obs2, i),
            ) by {
                assert(observed_at(obs2, i) == disk_get(d1, s[i].0@));
                assert(digest_matches(s[i].1));
                if !needs_write(s[i].1, observed_at(obs1, i)) {
                    lemma_written_unique(s, obs1, i);
                    assert(observed_at(obs1, i) == disk_get(d, s[i].0@));
                    assert(has_key(s, s[i].0@));
                    assert(!dels.contains(s[i].0@));
                    assert(disk_get(dd, s[i].0@) == disk_get(d, s[i].0@));
                }
            }
            lemma_no_writes(s, obs2, s.len() as int);
            assert forall|n: Seq<char>| dels.contains(n) implies #[trigger] disk_get(d1, n) is None by {
                assert(!has_key(s, n));
                if written_among(s, obs1, s.len() as int, n) {
                    let i = choose|i: int|
                        0 <= i < s.len() && s[i].0@ == n && needs_write(s[i].1, observed_at(obs1, i));
                    assert(has_key(s, n));
                }
                assert(disk_get(dd, n) is None);
            }
        },
        None => {
            assert(d1 == dd);
            assert forall|n: Seq<char>| dels.contains(n) implies #[trigger] disk_get(d1, n) is None by {
                assert(disk_get(dd, n) is None);
            }
        },
    }
    let d2 = apply_deletions(d1, dels);
    assert(after_reconcile(d1, old, new, obs2) == d2);
    assert forall|n: Seq<char>| #[trigger] disk_get(d2, n) == disk_get(d1, n) by {
        lemma_deletions(d1, dels, n);
    }
    assert forall|n: Seq<char>| #[trigger] d2.dom().contains(n) == d1.dom().contains(n) by {
        assert(disk_get(d2, n) == disk_get(d1, n));
    }
    assert(d2.dom() =~= d1.dom());
    assert forall|n: Seq<char>| #[trigger] d2.dom().contains(n) implies d2[n] == d1[n] by {
        assert(disk_get(d2, n) == disk_get(d1, n));
    }
    assert(d2 =~= d1);
}

} // verus!

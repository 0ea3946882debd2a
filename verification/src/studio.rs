use crate::error::concat_str;
use crate::job_spec::{
    jobspec_error, jobspec_fields, jobspec_json, jobspec_json_error, law_jobspec_roundtrip,
    lemma_lookup_at, members_of, same_jobspec, JobSpec,
};
use crate::json::{
    find_member, lemma_models, lemma_pair_models, lookup, models, pair_models, Json, Value,
};
use crate::json::json_text;
use crate::json_laws::{
    law_json_text_roundtrip, lemma_readable_items_from, lemma_readable_pairs_from, readable,
};
use crate::json_parse::{parse_spec, Error};
use crate::text::{chars_vec, decimal_chars, push_char, u64_to_string};
use vstd::prelude::*;
use vstd::string::StringExecFns;
use vstd::utf8::encode_utf8;

verus! {

/// Studio failures. `Io` carries the path and the operating system's
/// message.
#[derive(Debug)]
pub enum StudioError {
    Io { path: String, source: String },
    Json(String),
    Render(String),
    RenderMissing,
    Queue(String),
}

/// The message shown for a studio error.
pub open spec fn studio_error_text(e: StudioError) -> Seq<char> {
    match e {
        StudioError::Io { path, source } => "io error on "@ + path@ + ": "@ + source@,
        StudioError::Json(m) => "json error: "@ + m@,
        StudioError::Render(m) => "render failed: "@ + m@,
        StudioError::RenderMissing => "render binary not found (set RENDER / IDLE_RENDER or PATH)"@,
        StudioError::Queue(m) => "queue error: "@ + m@,
    }
}

impl StudioError {
    pub fn to_string(&self) -> (s: String)
        ensures
            s@ == studio_error_text(*self),
    {
        match self {
            StudioError::Io { path, source } => {
                let head = concat_str("io error on ", path.as_str());
                let mid = concat_str(head.as_str(), ": ");
                concat_str(mid.as_str(), source.as_str())
            },
            StudioError::Json(m) => concat_str("json error: ", m.as_str()),
            StudioError::Render(m) => concat_str("render failed: ", m.as_str()),
            StudioError::RenderMissing => "render binary not found (set RENDER / IDLE_RENDER or PATH)".to_owned(),
            StudioError::Queue(m) => concat_str("queue error: ", m.as_str()),
        }
    }

    /// A JSON parse error, as its message.
    pub fn from_json_error(e: Error) -> (s: StudioError)
        ensures
            s matches StudioError::Json(m) && m@ == e.parts().0 + " at line "@ + decimal_chars(
                e.parts().1,
            ) + " column "@ + decimal_chars(e.parts().2),
    {
        StudioError::Json(e.to_string())
    }
}

/// One queued item for the Director UI.
#[derive(Debug, Clone)]
pub struct StudioJob {
    pub id: String,
    /// Serialized flat: `id` first, then the job spec's fields.
    pub spec: JobSpec,
}

/// The member `key` of an object value (`None` for other values).
pub open spec fn member(j: Json, key: Seq<char>) -> Option<Json> {
    match j {
        Json::Object(o) => lookup(o, key),
        _ => None,
    }
}

/// The JSON object of a studio job: `id`, then the spec's members.
pub open spec fn studio_job_json(j: StudioJob) -> Json {
    Json::Object(seq![("id"@, Json::Str(j.id@))] + members_of(jobspec_json(j.spec)))
}

/// Why a JSON value does not read as a studio job, if it does not.
pub open spec fn studio_job_error(j: Json) -> Option<Seq<char>> {
    match member(j, "id"@) {
        None => Some("missing field `id`"@),
        Some(Json::Str(_)) => jobspec_json_error(j),
        Some(_) => Some("invalid type for `id`: expected string"@),
    }
}

/// `job` holds what the JSON value `j` says.
pub open spec fn studio_job_fields(job: StudioJob, j: Json) -> bool {
    &&& member(j, "id"@) == Some(Json::Str(job.id@))
    &&& jobspec_fields(job.spec, members_of(j))
}

impl StudioJob {
    pub fn new(id: String, spec: JobSpec) -> (j: StudioJob)
        ensures
            j.id == id && j.spec == spec,
    {
        StudioJob { id, spec }
    }

    /// JSON object: `id` followed by the job spec's fields.
    pub fn to_value(&self) -> (v: Value)
        ensures
            v.model() == studio_job_json(*self),
    {
        let mut pairs: Vec<(String, Value)> = Vec::new();
        pairs.push(("id".to_owned(), Value::Str(self.id.clone())));
        let sv = self.spec.to_value();
        let ghost head = pairs@;
        proof {
            lemma_pair_models(head);
        }
        match sv {
            Value::Object(spec_pairs) => {
                let mut rest = spec_pairs;
                let ghost tail = rest@;
                pairs.append(&mut rest);
                proof {
                    lemma_pair_models(tail);
                    lemma_pair_models(pairs@);
                    assert(pair_models(pairs@) =~= seq![("id"@, Json::Str(self.id@))]
                        + members_of(jobspec_json(self.spec)));
                }
                Value::Object(pairs)
            },
            _ => {
                proof {
                    assert(false);
                }
                Value::Object(pairs)
            },
        }
    }

    /// Inverse of [`StudioJob::to_value`]; the job spec ignores the `id` key.
    pub fn from_value(v: &Value) -> (res: Result<StudioJob, String>)
        ensures
            studio_job_error(v.model()) matches Some(m) ==> (res matches Err(e) && e@ == m),
            studio_job_error(v.model()) is None ==> (res matches Ok(j) && studio_job_fields(
                j,
                v.model(),
            )),
    {
        let id = match v.get("id") {
            Some(Value::Str(s)) => s.clone(),
            Some(_) => {
                return Err("invalid type for `id`: expected string".to_owned());
            },
            None => {
                return Err("missing field `id`".to_owned());
            },
        };
        let spec = match JobSpec::from_value(v) {
            Ok(s) => s,
            Err(e) => {
                return Err(e);
            },
        };
        Ok(StudioJob { id, spec })
    }
}

#[derive(Debug, Clone, Copy, PartialEq, Eq, Structural)]
pub enum JobStatus {
    Pending,
    Running,
    Done,
    Failed,
}

/// The wire name of a status.
pub open spec fn status_name(s: JobStatus) -> Seq<char> {
    match s {
        JobStatus::Pending => "pending"@,
        JobStatus::Running => "running"@,
        JobStatus::Done => "done"@,
        JobStatus::Failed => "failed"@,
    }
}

/// The status a wire name stands for.
pub open spec fn status_of_name(s: Seq<char>) -> Option<JobStatus> {
    if s == "pending"@ {
        Some(JobStatus::Pending)
    } else if s == "running"@ {
        Some(JobStatus::Running)
    } else if s == "done"@ {
        Some(JobStatus::Done)
    } else if s == "failed"@ {
        Some(JobStatus::Failed)
    } else {
        None
    }
}

fn same_chars(s: &str, lit: &str) -> (r: bool)
    ensures
        r == (s@ == lit@),
{
    let a = s.to_owned();
    let b = lit.to_owned();
    a == b
}

impl JobStatus {
    /// The wire name (`snake_case`).
    pub fn as_str(self) -> (s: &'static str)
        ensures
            s@ == status_name(self),
    {
        match self {
            JobStatus::Pending => "pending",
            JobStatus::Running => "running",
            JobStatus::Done => "done",
            JobStatus::Failed => "failed",
        }
    }

    pub fn from_str(s: &str) -> (res: Result<JobStatus, String>)
        ensures
            status_of_name(s@) matches Some(st) ==> res == Ok::<JobStatus, String>(st),
            status_of_name(s@) is None ==> (res matches Err(e) && e@ == "unknown job status '"@
                + s@ + "'"@),
    {
        if same_chars(s, "pending") {
            Ok(JobStatus::Pending)
        } else if same_chars(s, "running") {
            Ok(JobStatus::Running)
        } else if same_chars(s, "done") {
            Ok(JobStatus::Done)
        } else if same_chars(s, "failed") {
            Ok(JobStatus::Failed)
        } else {
            let head = concat_str("unknown job status '", s);
            Err(concat_str(head.as_str(), "'"))
        }
    }
}

#[derive(Debug, Clone)]
pub struct QueueEntry {
    pub job: StudioJob,
    pub status: JobStatus,
    pub message: String,
}

/// The JSON object of a queue entry.
pub open spec fn entry_json(e: QueueEntry) -> Json {
    Json::Object(
        seq![
            ("job"@, studio_job_json(e.job)),
            ("status"@, Json::Str(status_name(e.status))),
            ("message"@, Json::Str(e.message@)),
        ],
    )
}

/// Why a JSON value does not read as a queue entry, if it does not.
pub open spec fn entry_error(j: Json) -> Option<Seq<char>> {
    match member(j, "job"@) {
        None => Some("missing field `job`"@),
        Some(jj) => if studio_job_error(jj) is Some {
            studio_job_error(jj)
        } else {
            match member(j, "status"@) {
                None => Some("missing field `status`"@),
                Some(Json::Str(st)) => if status_of_name(st) is None {
                    Some("unknown job status '"@ + st + "'"@)
                } else {
                    match member(j, "message"@) {
                        None => None,
                        Some(Json::Null) => None,
                        Some(Json::Str(_)) => None,
                        Some(_) => Some("invalid type for `message`: expected string"@),
                    }
                },
                Some(_) => Some("invalid type for `status`: expected string"@),
            }
        },
    }
}

/// `e` holds what the JSON value `j` says.
pub open spec fn entry_fields(e: QueueEntry, j: Json) -> bool {
    &&& studio_job_fields(e.job, member(j, "job"@)->0)
    &&& member(j, "status"@) == Some(Json::Str(status_name(e.status)))
    &&& match member(j, "message"@) {
        Some(Json::Str(m)) => e.message@ == m,
        _ => e.message@ == Seq::<char>::empty(),
    }
}

impl QueueEntry {
    pub fn to_value(&self) -> (v: Value)
        ensures
            v.model() == entry_json(*self),
    {
        let mut pairs: Vec<(String, Value)> = Vec::new();
        pairs.push(("job".to_owned(), self.job.to_value()));
        pairs.push(("status".to_owned(), Value::Str(self.status.as_str().to_owned())));
        pairs.push(("message".to_owned(), Value::Str(self.message.clone())));
        proof {
            lemma_pair_models(pairs@);
            assert(pair_models(pairs@) =~= members_of(entry_json(*self)));
        }
        Value::Object(pairs)
    }

    pub fn from_value(v: &Value) -> (res: Result<QueueEntry, String>)
        ensures
            entry_error(v.model()) matches Some(m) ==> (res matches Err(e) && e@ == m),
            entry_error(v.model()) is None ==> (res matches Ok(e) && entry_fields(e, v.model())),
    {
        let job = match v.get("job") {
            None => {
                return Err("missing field `job`".to_owned());
            },
            Some(jv) => match StudioJob::from_value(jv) {
                Ok(j) => j,
                Err(e) => {
                    return Err(e);
                },
            },
        };
        let status = match v.get("status") {
            Some(Value::Str(s)) => match JobStatus::from_str(s.as_str()) {
                Ok(st) => st,
                Err(e) => {
                    return Err(e);
                },
            },
            Some(_) => {
                return Err("invalid type for `status`: expected string".to_owned());
            },
            None => {
                return Err("missing field `status`".to_owned());
            },
        };
        let message = match v.get("message") {
            None => String::new(),
            Some(Value::Null) => String::new(),
            Some(Value::Str(s)) => s.clone(),
            Some(_) => {
                return Err("invalid type for `message`: expected string".to_owned());
            },
        };
        Ok(QueueEntry { job, status, message })
    }
}

#[derive(Debug, Clone)]
pub struct JobQueue {
    pub entries: Vec<QueueEntry>,
}

/// The JSON models of queue entries.
pub open spec fn entries_json(es: Seq<QueueEntry>) -> Seq<Json> {
    Seq::new(es.len(), |i: int| entry_json(es[i]))
}

/// The JSON object of a queue.
pub open spec fn queue_json(q: JobQueue) -> Json {
    Json::Object(seq![("entries"@, Json::Array(entries_json(q.entries@)))])
}

/// The first entry, in order, that does not read as a queue entry.
pub open spec fn entries_error(items: Seq<Json>) -> Option<Seq<char>>
    decreases items.len(),
{
    if items.len() == 0 {
        None
    } else if entries_error(items.drop_last()) is Some {
        entries_error(items.drop_last())
    } else {
        entry_error(items.last())
    }
}

/// Why a JSON value does not read as a queue, if it does not.
pub open spec fn queue_error(j: Json) -> Option<Seq<char>> {
    match member(j, "entries"@) {
        Some(Json::Array(items)) => entries_error(items),
        Some(_) => Some("invalid type for `entries`: expected array"@),
        None => Some("missing field `entries`"@),
    }
}

/// `q` holds what the JSON value `j` says.
pub open spec fn queue_fields(q: JobQueue, j: Json) -> bool {
    match member(j, "entries"@) {
        Some(Json::Array(items)) => q.entries@.len() == items.len() && forall|i: int|
            0 <= i < items.len() ==> entry_fields(#[trigger] q.entries@[i], items[i]),
        _ => false,
    }
}

/// `"job-<n>"`.
pub open spec fn job_id(n: nat) -> Seq<char> {
    "job-"@ + decimal_chars(n)
}

/// Some entry of `es` has the id `id`.
pub open spec fn id_taken(es: Seq<QueueEntry>, id: Seq<char>) -> bool {
    exists|i: int| 0 <= i < es.len() && (#[trigger] es[i]).job.id@ == id
}

impl JobQueue {
    pub fn new() -> (q: JobQueue)
        ensures
            q.entries@.len() == 0,
    {
        JobQueue { entries: Vec::new() }
    }

    pub fn to_value(&self) -> (v: Value)
        ensures
            v.model() == queue_json(*self),
    {
        let mut items: Vec<Value> = Vec::new();
        let mut i: usize = 0;
        while i < self.entries.len()
            invariant
                i <= self.entries@.len(),
                items@.len() == i,
                forall|k: int| 0 <= k < i ==> (#[trigger] items@[k]).model() == entry_json(
                    self.entries@[k],
                ),
            decreases self.entries@.len() - i,
        {
            items.push(self.entries[i].to_value());
            i = i + 1;
        }
        proof {
            lemma_models(items@);
            assert(models(items@) =~= entries_json(self.entries@));
        }
        let mut pairs: Vec<(String, Value)> = Vec::new();
        pairs.push(("entries".to_owned(), Value::Array(items)));
        proof {
            lemma_pair_models(pairs@);
            assert(pair_models(pairs@) =~= members_of(queue_json(*self)));
        }
        Value::Object(pairs)
    }

    pub fn from_value(v: &Value) -> (res: Result<JobQueue, String>)
        ensures
            queue_error(v.model()) matches Some(m) ==> (res matches Err(e) && e@ == m),
            queue_error(v.model()) is None ==> (res matches Ok(q) && queue_fields(q, v.model())),
    {
        let items = match v.get("entries") {
            Some(Value::Array(items)) => items,
            Some(_) => {
                return Err("invalid type for `entries`: expected array".to_owned());
            },
            None => {
                return Err("missing field `entries`".to_owned());
            },
        };
        proof {
            lemma_models(items@);
            assert(member(v.model(), "entries"@) == Some(Json::Array(models(items@))));
        }
        let mut entries: Vec<QueueEntry> = Vec::new();
        let mut i: usize = 0;
        while i < items.len()
            invariant
                member(v.model(), "entries"@) == Some(Json::Array(models(items@))),
                i <= items@.len(),
                models(items@).len() == items@.len(),
                forall|k: int| 0 <= k < items@.len() ==> #[trigger] models(items@)[k] == items@[k].model(),
                entries_error(models(items@).take(i as int)) is None,
                entries@.len() == i,
                forall|k: int| 0 <= k < i ==> entry_fields(#[trigger] entries@[k], items@[k].model()),
            decreases items@.len() - i,
        {
            let ghost ms = models(items@);
            assert(ms.take(i + 1).drop_last() =~= ms.take(i as int));
            match QueueEntry::from_value(&items[i]) {
                Ok(e) => {
                    entries.push(e);
                },
                Err(e) => {
                    proof {
                        lemma_entries_error_prefix(ms, (i + 1) as int);
                    }
                    return Err(e);
                },
            }
            i = i + 1;
        }
        assert(models(items@).take(i as int) =~= models(items@));
        Ok(JobQueue { entries })
    }

    /// Append a job as pending, with no message.
    pub fn enqueue(&mut self, job: StudioJob)
        ensures
            final(self).entries@.len() == old(self).entries@.len() + 1,
            final(self).entries@.take(old(self).entries@.len() as int) == old(self).entries@,
            final(self).entries@.last().job == job,
            final(self).entries@.last().status == JobStatus::Pending,
            final(self).entries@.last().message@ == Seq::<char>::empty(),
    {
        self.entries.push(QueueEntry { job, status: JobStatus::Pending, message: String::new() });
        assert(self.entries@.take(old(self).entries@.len() as int) =~= old(self).entries@);
    }

    /// Index of the first pending entry.
    pub fn next_pending_index(&self) -> (r: Option<usize>)
        ensures
            r matches Some(i) ==> i < self.entries@.len() && self.entries@[i as int].status
                == JobStatus::Pending && forall|k: int|
                0 <= k < i ==> (#[trigger] self.entries@[k]).status != JobStatus::Pending,
            r is None ==> forall|k: int|
                0 <= k < self.entries@.len() ==> (#[trigger] self.entries@[k]).status
                    != JobStatus::Pending,
    {
        let mut i: usize = 0;
        while i < self.entries.len()
            invariant
                i <= self.entries@.len(),
                forall|k: int| 0 <= k < i ==> (#[trigger] self.entries@[k]).status != JobStatus::Pending,
            decreases self.entries@.len() - i,
        {
            if self.entries[i].status == JobStatus::Pending {
                return Some(i);
            }
            i = i + 1;
        }
        None
    }
}

/// An error among the first `n` entries is an error of every longer prefix.
proof fn lemma_entries_error_prefix(items: Seq<Json>, n: int)
    requires
        0 <= n <= items.len(),
        entries_error(items.take(n)) is Some,
    ensures
        entries_error(items) == entries_error(items.take(n)),
    decreases items.len() - n,
{
    if n < items.len() {
        assert(items.take(n + 1).drop_last() =~= items.take(n));
        lemma_entries_error_prefix(items, n + 1);
    } else {
        assert(items.take(n) =~= items);
    }
}

/// `id` is `job-N` for the first `N` past the number of entries that no
/// entry uses (or `N = u64::MAX` once every smaller one is taken).
pub open spec fn is_next_id(es: Seq<QueueEntry>, id: Seq<char>) -> bool {
    exists|n: nat|
        #![trigger job_id(n)]
        id == job_id(n) && (n >= es.len() + 1 || n == u64::MAX) && n <= u64::MAX && (n < u64::MAX
            ==> !id_taken(es, job_id(n))) && forall|k: nat|
            es.len() + 1 <= k < n ==> id_taken(es, #[trigger] job_id(k))
}

impl JobQueue {
    /// First unused `job-N` id, counting from one past the number of
    /// entries.
    pub fn next_id(&self) -> (id: String)
        ensures
            is_next_id(self.entries@, id@),
    {
        let len = self.entries.len();
        let mut n: u64 = if (len as u64) < u64::MAX {
            len as u64 + 1
        } else {
            u64::MAX
        };
        loop
            invariant
                len == self.entries@.len(),
                len + 1 <= n || n == u64::MAX,
                n <= u64::MAX,
                forall|k: nat| len + 1 <= k < n ==> id_taken(self.entries@, #[trigger] job_id(k)),
            decreases u64::MAX - n,
        {
            let candidate = job_id_text(n);
            let mut found = false;
            let mut i: usize = 0;
            while i < self.entries.len()
                invariant
                    i <= self.entries@.len(),
                    candidate@ == job_id(n as nat),
                    found ==> id_taken(self.entries@, job_id(n as nat)),
                    !found ==> forall|j: int| 0 <= j < i ==> (#[trigger] self.entries@[j]).job.id@ != job_id(n as nat),
                decreases self.entries@.len() - i,
            {
                if self.entries[i].job.id == candidate {
                    found = true;
                }
                i = i + 1;
            }
            if !found || n == u64::MAX {
                return candidate;
            }
            n = n + 1;
        }
    }
}

/// `"job-<n>"` as text.
fn job_id_text(n: u64) -> (s: String)
    ensures
        s@ == job_id(n as nat),
{
    let d = u64_to_string(n);
    concat_str("job-", d.as_str())
}

/// The character a job id keeps in a file name: ASCII letters and
/// digits, `-` and `_`; anything else becomes `_`.
pub open spec fn safe_char(c: char) -> char {
    if ('a' <= c <= 'z') || ('A' <= c <= 'Z') || ('0' <= c <= '9') || c == '-' || c == '_' {
        c
    } else {
        '_'
    }
}

/// A job id made safe for a file name; `job` when nothing but
/// underscores (or nothing) is left.
pub open spec fn safe_id(id: Seq<char>) -> Seq<char> {
    let mapped = Seq::new(id.len(), |i: int| safe_char(id[i]));
    if forall|i: int| 0 <= i < mapped.len() ==> mapped[i] == '_' {
        "job"@
    } else {
        mapped
    }
}

/// The temp file name of a job: `idle-studio-<pid>-<safe id>-<seq>.json`.
pub open spec fn job_file_name_spec(id: Seq<char>, pid: u32, seq: u64) -> Seq<char> {
    "idle-studio-"@ + decimal_chars(pid as nat) + "-"@ + safe_id(id) + "-"@ + decimal_chars(
        seq as nat,
    ) + ".json"@
}

impl StudioJob {
    /// The file name this job's temp job file gets, for process `pid` and
    /// sequence number `seq`. The id is sanitized: it cannot introduce a
    /// path separator or a `..`.
    pub fn job_file_name(&self, pid: u32, seq: u64) -> (name: String)
        ensures
            name@ == job_file_name_spec(self.id@, pid, seq),
    {
        let cs = chars_vec(self.id.as_str());
        let mut mapped = String::new();
        let mut all_underscore = true;
        let mut i: usize = 0;
        while i < cs.len()
            invariant
                cs@ == self.id@,
                i <= cs@.len(),
                mapped@ == Seq::new(i as nat, |k: int| safe_char(cs@[k])),
                all_underscore <==> forall|k: int| 0 <= k < i ==> mapped@[k] == '_',
            decreases cs@.len() - i,
        {
            let c = cs[i];
            let keep = ('a' <= c && c <= 'z') || ('A' <= c && c <= 'Z') || ('0' <= c && c <= '9')
                || c == '-' || c == '_';
            let m = if keep {
                c
            } else {
                '_'
            };
            let ghost before = mapped@;
            push_char(&mut mapped, m);
            assert(mapped@ == before.push(m));
            if m != '_' {
                all_underscore = false;
            }
            proof {
                if all_underscore {
                    assert forall|k: int| 0 <= k < i + 1 implies mapped@[k] == '_' by {
                        if k < i {
                            assert(mapped@[k] == before[k]);
                        }
                    }
                } else {
                    if m != '_' {
                        assert(mapped@[i as int] != '_');
                    } else {
                        let w = choose|k: int| 0 <= k < i && before[k] != '_';
                        assert(mapped@[w] != '_');
                    }
                }
            }
            i = i + 1;
            assert(mapped@ =~= Seq::new(i as nat, |k: int| safe_char(cs@[k])));
        }
        let safe = if all_underscore {
            "job".to_owned()
        } else {
            mapped
        };
        let p = u64_to_string(pid as u64);
        let q = u64_to_string(seq);
        let mut name = concat_str("idle-studio-", p.as_str());
        name.append("-");
        name.append(safe.as_str());
        name.append("-");
        name.append(q.as_str());
        name.append(".json");
        name
    }
}

/// Each status reads back from its wire name.
pub proof fn law_status_name_roundtrip(st: JobStatus)
    ensures
        status_of_name(status_name(st)) == Some(st),
{
    reveal_strlit("pending");
    reveal_strlit("running");
    reveal_strlit("done");
    reveal_strlit("failed");
    assert("running"@[0] != "pending"@[0]);
    assert("done"@.len() != "pending"@.len() && "done"@.len() != "running"@.len());
    assert("failed"@.len() != "pending"@.len() && "failed"@.len() != "running"@.len());
    assert("failed"@.len() != "done"@.len());
}

/// A character that is safe in a file name component.
pub open spec fn plain_char(c: char) -> bool {
    ('a' <= c <= 'z') || ('A' <= c <= 'Z') || ('0' <= c <= '9') || c == '-' || c == '_'
}

proof fn lemma_decimal_plain(n: nat)
    ensures
        forall|i: int| 0 <= i < decimal_chars(n).len() ==> plain_char(#[trigger] decimal_chars(n)[i]),
    decreases n,
{
    if n >= 10 {
        lemma_decimal_plain(n / 10);
        let d = decimal_chars(n / 10);
        assert forall|i: int| 0 <= i < decimal_chars(n).len() implies plain_char(
            #[trigger] decimal_chars(n)[i],
        ) by {
            if i < d.len() {
                assert(decimal_chars(n)[i] == d[i]);
            }
        }
    }
}

proof fn lemma_safe_id_plain(id: Seq<char>)
    ensures
        forall|i: int| 0 <= i < safe_id(id).len() ==> plain_char(#[trigger] safe_id(id)[i]),
{
    reveal_strlit("job");
}

/// Whatever the job id, its temp file name has no path separator, and its
/// only `.` is the one before the `json` extension (so no `..`).
pub proof fn law_job_file_name_is_plain(id: Seq<char>, pid: u32, seq: u64)
    ensures
        forall|i: int|
            0 <= i < job_file_name_spec(id, pid, seq).len() ==> {
                let c = #[trigger] job_file_name_spec(id, pid, seq)[i];
                &&& c != '/'
                &&& c != '\\'
                &&& c == '.' ==> i == job_file_name_spec(id, pid, seq).len() - 5
            },
{
    reveal_strlit("idle-studio-");
    reveal_strlit("-");
    reveal_strlit(".json");
    lemma_decimal_plain(pid as nat);
    lemma_decimal_plain(seq as nat);
    lemma_safe_id_plain(id);
    let p = "idle-studio-"@ + decimal_chars(pid as nat) + "-"@ + safe_id(id) + "-"@ + decimal_chars(
        seq as nat,
    );
    assert forall|i: int| 0 <= i < p.len() implies plain_char(#[trigger] p[i]) by {
        let a = "idle-studio-"@;
        let b = decimal_chars(pid as nat);
        let d = safe_id(id);
        let f = decimal_chars(seq as nat);
        if i < a.len() {
        } else if i < a.len() + b.len() {
            assert(p[i] == b[i - a.len()]);
        } else if i < a.len() + b.len() + 1 {
        } else if i < a.len() + b.len() + 1 + d.len() {
            assert(p[i] == d[i - a.len() - b.len() - 1]);
        } else if i < a.len() + b.len() + 2 + d.len() {
        } else {
            assert(p[i] == f[i - a.len() - b.len() - 2 - d.len()]);
        }
    }
    let name = job_file_name_spec(id, pid, seq);
    assert(name == p + ".json"@);
    assert forall|i: int| 0 <= i < name.len() implies {
        let c = #[trigger] name[i];
        &&& c != '/'
        &&& c != '\\'
        &&& c == '.' ==> i == name.len() - 5
    } by {
        if i < p.len() {
            assert(name[i] == p[i]);
            assert(plain_char(p[i]));
        } else {
            assert(name[i] == ".json"@[i - p.len()]);
        }
    }
}


/// A member put in front with another key does not change a lookup.
proof fn lemma_lookup_behind(p: (Seq<char>, Json), o: Seq<(Seq<char>, Json)>, key: Seq<char>)
    requires
        p.0 != key,
    ensures
        lookup(seq![p] + o, key) == lookup(o, key),
{
    assert((seq![p] + o).drop_first() =~= o);
}

/// Reading back the JSON a studio job writes succeeds and gives the same
/// job.
pub proof fn law_studio_job_roundtrip(j: StudioJob, back: StudioJob)
    ensures
        studio_job_error(studio_job_json(j)) is None,
        studio_job_fields(back, studio_job_json(j)) ==> back.id@ == j.id@ && same_jobspec(
            back.spec,
            j.spec,
        ),
{
    let o = members_of(jobspec_json(j.spec));
    let idp = ("id"@, Json::Str(j.id@));
    let full = seq![idp] + o;
    assert(studio_job_json(j) == Json::Object(full));
    reveal_strlit("id");
    reveal_strlit("effect");
    assert("id"@.len() != "effect"@.len());
    lemma_lookup_behind(idp, o, "effect"@);
    reveal_strlit("plugin_path");
    assert("id"@.len() != "plugin_path"@.len());
    lemma_lookup_behind(idp, o, "plugin_path"@);
    reveal_strlit("seed");
    assert("id"@.len() != "seed"@.len());
    lemma_lookup_behind(idp, o, "seed"@);
    reveal_strlit("fps");
    assert("id"@.len() != "fps"@.len());
    lemma_lookup_behind(idp, o, "fps"@);
    reveal_strlit("duration");
    assert("id"@.len() != "duration"@.len());
    lemma_lookup_behind(idp, o, "duration"@);
    reveal_strlit("output");
    assert("id"@.len() != "output"@.len());
    lemma_lookup_behind(idp, o, "output"@);
    reveal_strlit("width");
    assert("id"@.len() != "width"@.len());
    lemma_lookup_behind(idp, o, "width"@);
    reveal_strlit("height");
    assert("id"@.len() != "height"@.len());
    lemma_lookup_behind(idp, o, "height"@);
    reveal_strlit("cols");
    assert("id"@.len() != "cols"@.len());
    lemma_lookup_behind(idp, o, "cols"@);
    reveal_strlit("rows");
    assert("id"@.len() != "rows"@.len());
    lemma_lookup_behind(idp, o, "rows"@);
    reveal_strlit("dry_run");
    assert("id"@.len() != "dry_run"@.len());
    lemma_lookup_behind(idp, o, "dry_run"@);
    reveal_strlit("raw");
    assert("id"@.len() != "raw"@.len());
    lemma_lookup_behind(idp, o, "raw"@);
    reveal_strlit("segment");
    assert("id"@.len() != "segment"@.len());
    lemma_lookup_behind(idp, o, "segment"@);
    reveal_strlit("audio");
    assert("id"@.len() != "audio"@.len());
    lemma_lookup_behind(idp, o, "audio"@);
    reveal_strlit("resume");
    assert("id"@.len() != "resume"@.len());
    lemma_lookup_behind(idp, o, "resume"@);
    reveal_strlit("crf");
    assert("id"@.len() != "crf"@.len());
    lemma_lookup_behind(idp, o, "crf"@);
    reveal_strlit("preset");
    assert("id"@.len() != "preset"@.len());
    lemma_lookup_behind(idp, o, "preset"@);
    reveal_strlit("encoder");
    assert("id"@.len() != "encoder"@.len());
    lemma_lookup_behind(idp, o, "encoder"@);
    reveal_strlit("prefer_hw");
    assert("id"@.len() != "prefer_hw"@.len());
    lemma_lookup_behind(idp, o, "prefer_hw"@);
    reveal_strlit("gpu_upscale");
    assert("id"@.len() != "gpu_upscale"@.len());
    lemma_lookup_behind(idp, o, "gpu_upscale"@);
    reveal_strlit("format");
    assert("id"@.len() != "format"@.len());
    lemma_lookup_behind(idp, o, "format"@);
    reveal_strlit("container");
    assert("id"@.len() != "container"@.len());
    lemma_lookup_behind(idp, o, "container"@);
    reveal_strlit("baseline_dir");
    assert("id"@.len() != "baseline_dir"@.len());
    lemma_lookup_behind(idp, o, "baseline_dir"@);
    reveal_strlit("snapshot_last_only");
    assert("id"@.len() != "snapshot_last_only"@.len());
    lemma_lookup_behind(idp, o, "snapshot_last_only"@);
    reveal_strlit("update_baselines");
    assert("id"@.len() != "update_baselines"@.len());
    lemma_lookup_behind(idp, o, "update_baselines"@);
    reveal_strlit("cpu_raster");
    assert("id"@.len() != "cpu_raster"@.len());
    lemma_lookup_behind(idp, o, "cpu_raster"@);
    law_jobspec_roundtrip(j.spec, back.spec);
    assert(lookup(full, "id"@) == Some(Json::Str(j.id@)));
    assert(jobspec_error(full) == jobspec_error(o));
    if studio_job_fields(back, studio_job_json(j)) {
        assert(jobspec_fields(back.spec, o));
    }
}

/// Reading back the JSON a queue entry writes succeeds and gives the same
/// entry.
pub proof fn law_entry_roundtrip(e: QueueEntry, back: QueueEntry)
    ensures
        entry_error(entry_json(e)) is None,
        entry_fields(back, entry_json(e)) ==> back.job.id@ == e.job.id@ && same_jobspec(
            back.job.spec,
            e.job.spec,
        ) && back.status == e.status && back.message@ == e.message@,
{
    reveal_strlit("job");
    reveal_strlit("status");
    reveal_strlit("message");
    let o = members_of(entry_json(e));
    lemma_lookup_at(o, "job"@, 0);
    assert(o[0].0.len() != "status"@.len());
    lemma_lookup_at(o, "status"@, 1);
    assert(o[0].0.len() != "message"@.len());
    assert(o[1].0.len() != "message"@.len());
    lemma_lookup_at(o, "message"@, 2);
    law_studio_job_roundtrip(e.job, back.job);
    law_status_name_roundtrip(e.status);
    if entry_fields(back, entry_json(e)) {
        law_status_name_roundtrip(back.status);
    }
}

/// Reading back the JSON a queue writes succeeds and gives the same
/// entries, in order.
pub proof fn law_queue_roundtrip(q: JobQueue, back: JobQueue)
    ensures
        queue_error(queue_json(q)) is None,
        queue_fields(back, queue_json(q)) ==> back.entries@.len() == q.entries@.len() && forall|
            i: int,
        |
            0 <= i < q.entries@.len() ==> {
                let a = #[trigger] back.entries@[i];
                let b = q.entries@[i];
                a.job.id@ == b.job.id@ && same_jobspec(a.job.spec, b.job.spec) && a.status
                    == b.status && a.message@ == b.message@
            },
{
    reveal_strlit("entries");
    let o = members_of(queue_json(q));
    lemma_lookup_at(o, "entries"@, 0);
    let items = entries_json(q.entries@);
    lemma_entries_ok(q.entries@, items.len() as int);
    assert(items.take(items.len() as int) =~= items);
    if queue_fields(back, queue_json(q)) {
        assert forall|i: int| 0 <= i < q.entries@.len() implies {
            let a = #[trigger] back.entries@[i];
            let b = q.entries@[i];
            a.job.id@ == b.job.id@ && same_jobspec(a.job.spec, b.job.spec) && a.status
                == b.status && a.message@ == b.message@
        } by {
            law_entry_roundtrip(q.entries@[i], back.entries@[i]);
        }
    }
}

proof fn lemma_entries_ok(es: Seq<QueueEntry>, n: int)
    requires
        0 <= n <= es.len(),
    ensures
        entries_error(entries_json(es).take(n)) is None,
    decreases n,
{
    if n > 0 {
        lemma_entries_ok(es, n - 1);
        let items = entries_json(es);
        assert(items.take(n).drop_last() =~= items.take(n - 1));
        law_entry_roundtrip(es[n - 1], es[n - 1]);
    }
}

/// The JSON of a studio job reads back from its text at depth `d`.
proof fn lemma_studio_job_readable(j: StudioJob, d: nat)
    requires
        d <= 127,
    ensures
        readable(studio_job_json(j), d),
{
    let o = members_of(jobspec_json(j.spec));
    let pairs = seq![("id"@, Json::Str(j.id@))] + o;
    assert forall|k: int| 0 <= k < pairs.len() implies readable(#[trigger] pairs[k].1, d + 1) by {
        if k > 0 {
            assert(pairs[k] == o[k - 1]);
        }
    }
    lemma_readable_pairs_from(pairs, d + 1);
}

/// The JSON of a queue entry reads back from its text at depth `d`.
proof fn lemma_entry_readable(e: QueueEntry, d: nat)
    requires
        d <= 126,
    ensures
        readable(entry_json(e), d),
{
    let pairs = entry_json(e)->Object_0;
    lemma_studio_job_readable(e.job, d + 1);
    assert forall|k: int| 0 <= k < pairs.len() implies readable(#[trigger] pairs[k].1, d + 1) by {}
    lemma_readable_pairs_from(pairs, d + 1);
}

/// A queue written out as a queue file reads back as the same queue: the
/// text parses to the JSON the queue writes, and that JSON reads back as
/// the same entries, in order.
pub proof fn law_queue_file_roundtrip(q: JobQueue, back: JobQueue)
    ensures
        parse_spec(encode_utf8(json_text(queue_json(q), true, Seq::empty()))) == Ok::<
            Json,
            (Seq<char>, int),
        >(queue_json(q)),
        queue_error(queue_json(q)) is None,
        queue_fields(back, queue_json(q)) ==> back.entries@.len() == q.entries@.len() && forall|
            i: int,
        |
            0 <= i < q.entries@.len() ==> {
                let a = #[trigger] back.entries@[i];
                let b = q.entries@[i];
                a.job.id@ == b.job.id@ && same_jobspec(a.job.spec, b.job.spec) && a.status
                    == b.status && a.message@ == b.message@
            },
{
    let items = entries_json(q.entries@);
    assert forall|k: int| 0 <= k < items.len() implies readable(#[trigger] items[k], 2) by {
        lemma_entry_readable(q.entries@[k], 2);
    }
    lemma_readable_items_from(items, 2);
    let pairs = queue_json(q)->Object_0;
    assert forall|k: int| 0 <= k < pairs.len() implies readable(#[trigger] pairs[k].1, 1) by {}
    lemma_readable_pairs_from(pairs, 1);
    law_json_text_roundtrip(queue_json(q), true);
    law_queue_roundtrip(q, back);
}

} // verus!

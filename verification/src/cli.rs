//! What the commands of the command line do.

use vstd::prelude::*;

use crate::text;
use crate::text::{decimal, signed_decimal};

verus! {

/// The part that a node plays in a cluster.
#[derive(Debug, Clone, Copy, PartialEq, Eq, Structural)]
pub enum ClusterRole {
    Scheduler,
    Worker,
}

/// An error of the server, by its message alone.
#[derive(Debug)]
pub struct ServerError {
    message: String,
}

impl ServerError {
    /// The message of the cause.
    pub closed spec fn cause(&self) -> Seq<char> {
        self.message@
    }

    /// An error with the message of its cause.
    pub fn new(message: String) -> (error: Self)
        ensures
            error.cause() == message@,
    {
        ServerError { message }
    }

    /// The message for the user.
    pub fn message(&self) -> (out: String)
        ensures
            out@ == "server error: "@ + self.cause(),
    {
        text::concat("server error: ", self.message.as_str())
    }
}

/// The outcome of a workload that runs beside a server: the workload's error comes before the
/// server's.
pub fn combined_outcome<E>(workload: Result<(), E>, server: Result<(), E>) -> (outcome: Result<
    (),
    E,
>)
    ensures
        outcome == match workload {
            Ok(_) => server,
            Err(e) => Err(e),
        },
{
    match workload {
        Ok(_) => server,
        Err(e) => Err(e),
    }
}

/// How the engine executes queries.
#[derive(Debug, Clone, Copy, PartialEq, Eq, Structural)]
pub enum ExecutionMode {
    Local,
    LocalCluster,
    KubernetesCluster,
}

/// The text for a mode of execution and a number of workers.
pub open spec fn mode_text(mode: ExecutionMode, workers: nat) -> Seq<char> {
    match mode {
        ExecutionMode::Local => "local"@,
        ExecutionMode::LocalCluster => "local-cluster, workers: "@ + decimal(workers),
        ExecutionMode::KubernetesCluster => "kubernetes-cluster"@,
    }
}

/// The text for a mode of execution and a number of workers.
pub fn mode_tag(mode: ExecutionMode, workers: usize) -> (tag: String)
    ensures
        tag@ == mode_text(mode, workers as nat),
{
    match mode {
        ExecutionMode::Local => "local".to_owned(),
        ExecutionMode::LocalCluster => {
            let mut tag = "local-cluster, workers: ".to_owned();
            text::push_decimal(&mut tag, workers as u64);
            tag
        },
        ExecutionMode::KubernetesCluster => "kubernetes-cluster".to_owned(),
    }
}

/// The number of workers of a local cluster: the configured one where none is asked for.
pub fn local_cluster_workers(configured: usize, workers: usize) -> (count: usize)
    ensures
        count == if workers > 0 {
            workers
        } else {
            configured
        },
{
    if workers > 0 {
        workers
    } else {
        configured
    }
}

/// An address and a port.
pub open spec fn address_text(ip: Seq<char>, port: u16) -> Seq<char> {
    ip + ":"@ + decimal(port as nat)
}

fn push_address(out: &mut String, ip: &str, port: u16)
    ensures
        final(out)@ == old(out)@ + address_text(ip@, port),
{
    out.append(ip);
    out.append(":");
    text::push_decimal(out, port as u64);
    assert(out@ =~= old(out)@ + address_text(ip@, port));
}

/// What a node of a cluster does: the lines that it prints, and whether it then runs a worker.
#[derive(Debug)]
pub struct ClusterStart {
    pub lines: Vec<String>,
    pub runs_worker: bool,
}

/// What a node of a cluster does. A worker without the address of a scheduler takes its own.
pub fn cluster_start(role: ClusterRole, ip: &str, port: u16, scheduler: Option<&str>) -> (start:
    ClusterStart)
    ensures
        match role {
            ClusterRole::Scheduler => {
                &&& !start.runs_worker
                &&& start.lines@.len() == 2
                &&& start.lines@[0]@ == "ignite cluster scheduler at "@ + address_text(ip@, port)
                &&& start.lines@[1]@ == "Distributed scheduler (Phase 2) — coming soon."@
            },
            ClusterRole::Worker => {
                &&& start.runs_worker
                &&& start.lines@.len() == 1
                &&& start.lines@[0]@ == "ignite cluster worker → scheduler at "@ + match scheduler {
                    Some(s) => s@,
                    None => address_text(ip@, port),
                }
            },
        },
{
    let mut lines: Vec<String> = Vec::new();
    match role {
        ClusterRole::Scheduler => {
            let mut line = "ignite cluster scheduler at ".to_owned();
            push_address(&mut line, ip, port);
            lines.push(line);
            lines.push("Distributed scheduler (Phase 2) — coming soon.".to_owned());
            ClusterStart { lines, runs_worker: false }
        },
        ClusterRole::Worker => {
            let mut line = "ignite cluster worker → scheduler at ".to_owned();
            match scheduler {
                Some(s) => line.append(s),
                None => push_address(&mut line, ip, port),
            }
            lines.push(line);
            ClusterStart { lines, runs_worker: true }
        },
    }
}

/// What the benchmark command prints.
pub fn bench_lines(scale_factor: u32, data_path: &str) -> (lines: Vec<String>)
    ensures
        lines@.len() == 4,
        lines@[0]@ == "Ignite TPC-H Benchmark — Scale Factor "@ + decimal(scale_factor as nat),
        lines@[1]@ == "Data path: "@ + data_path@,
        lines@[2]@ == "Benchmark harness (Phase 1, Week 10) — coming soon."@,
        lines@[3]@ == "Track progress: https://github.com/vikashgargg/ignite/issues"@,
{
    let mut first = "Ignite TPC-H Benchmark — Scale Factor ".to_owned();
    text::push_decimal(&mut first, scale_factor as u64);
    let mut lines: Vec<String> = Vec::new();
    lines.push(first);
    lines.push(text::concat("Data path: ", data_path));
    lines.push("Benchmark harness (Phase 1, Week 10) — coming soon.".to_owned());
    lines.push("Track progress: https://github.com/vikashgargg/ignite/issues".to_owned());
    lines
}

/// The script that runs a query, given the query in quotes.
pub open spec fn script_text(quoted: Seq<char>) -> Seq<char> {
    "from pyspark.sql import SparkSession\nspark = SparkSession.builder.remote(\"sc://localhost:50051\").getOrCreate()\nspark.sql("@
        + quoted + ").show(truncate=False)\n\n"@
}

/// The script that runs a query, given the query in quotes.
pub fn script_of(quoted: &str) -> (script: String)
    ensures
        script@ == script_text(quoted@),
{
    let mut script =
        "from pyspark.sql import SparkSession\nspark = SparkSession.builder.remote(\"sc://localhost:50051\").getOrCreate()\nspark.sql(".to_owned();
    script.append(quoted);
    script.append(").show(truncate=False)\n\n");
    script
}

/// The script that runs a query and shows its rows.
pub fn format_sql_script(query: &str) -> (script: String)
    ensures
        script@ == script_text(text::debug_text(query@)),
{
    let quoted = text::quote(query);
    script_of(quoted.as_str())
}

/// The error of a script that did not succeed; a script that was stopped has no code.
pub fn exit_message(code: Option<i32>) -> (message: String)
    ensures
        message@ == "PySpark exited with code "@ + signed_decimal(
            match code {
                Some(c) => c as int,
                None => -1,
            },
        ),
{
    let mut message = "PySpark exited with code ".to_owned();
    let shown: i64 = match code {
        Some(c) => c as i64,
        None => -1,
    };
    text::push_signed_decimal(&mut message, shown);
    message
}

} // verus!

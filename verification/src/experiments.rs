//! Bookkeeping of the scheduling experiments: which graph files to run and
//! how to name them, which scheduler a name selects, how the work is split
//! between threads, and what the graph generator reports.
use crate::text::copy_range;
use crate::text::split_fields;
use crate::text::split_on;
use crate::text::views;
use vstd::prelude::*;
use vstd::string::StringSliceAdditionalSpecFns;

verus! {

/// Byte of the path separator `/`.
pub const SLASH: u8 = 47;

/// Byte of `.`.
pub const DOT: u8 = 46;

/// Byte of `_`.
pub const UNDERSCORE: u8 = 95;

/// Byte of a space.
pub const SPACE: u8 = 32;

/// Byte of a line feed.
pub const NEWLINE: u8 = 10;

/// `suffix` ends `s`.
pub open spec fn has_suffix(s: Seq<u8>, suffix: Seq<u8>) -> bool {
    s.len() >= suffix.len() && s.skip(s.len() - suffix.len()) == suffix
}

/// Whether `s` ends with `suffix`.
pub fn ends_with(s: &[u8], suffix: &[u8]) -> (r: bool)
    ensures
        r == has_suffix(s@, suffix@),
{
    if s.len() < suffix.len() {
        return false;
    }
    let start = s.len() - suffix.len();
    let mut k: usize = 0;
    while k < suffix.len()
        invariant
            start == s.len() - suffix.len(),
            k <= suffix.len(),
            forall|j: int| 0 <= j < k ==> s@[start + j] == suffix@[j],
        decreases suffix.len() - k,
    {
        if s[start + k] != suffix[k] {
            proof {
                assert(s@.skip(start as int)[k as int] != suffix@[k as int]);
            }
            return false;
        }
        k = k + 1;
    }
    proof {
        assert(s@.skip(start as int) =~= suffix@);
    }
    true
}

/// The file name of a path: the part after the last `/`.
pub open spec fn base_name(path: Seq<u8>) -> Seq<u8> {
    split_on(path, SLASH).last()
}

/// Returns the file name of a path: the part after the last `/`.
pub fn file_name(path: &[u8]) -> (r: Vec<u8>)
    ensures
        r@ == base_name(path@),
{
    let mut parts = split_fields(path, SLASH);
    proof {
        crate::text::lemma_split_on_pieces(path@, SLASH);
        assert(views(parts@).last() == parts@.last()@);
    }
    parts.pop().unwrap()
}

/// The name of the job that a graph file holds: its file name up to the
/// first `.`.
pub open spec fn spec_job_name(path: Seq<u8>) -> Seq<u8> {
    split_on(base_name(path), DOT)[0]
}

/// Returns the name of the job that a graph file holds: its file name up to
/// the first `.`.
pub fn job_name(path: &[u8]) -> (r: Vec<u8>)
    ensures
        r@ == spec_job_name(path@),
{
    let base = file_name(path);
    let mut parts = split_fields(base.as_slice(), DOT);
    proof {
        crate::text::lemma_split_on_pieces(base@, DOT);
        assert(views(parts@)[0] == parts@[0]@);
    }
    parts.remove(0)
}

/// Returns the file name of a path without its last four bytes (the
/// extension of a `.dot` file, for example).
pub fn job_name_without_extension(path: &[u8]) -> (r: Vec<u8>)
    requires
        base_name(path@).len() >= 4,
    ensures
        r@ == base_name(path@).take(base_name(path@).len() - 4),
{
    let base = file_name(path);
    let end = base.len() - 4;
    copy_range(base.as_slice(), 0, end)
}

/// The parameters of a generated graph, written in its file name between
/// `_` signs.
pub open spec fn spec_graph_params(path: Seq<u8>) -> Seq<Seq<u8>> {
    split_on(base_name(path), UNDERSCORE)
}

/// Returns the parts of the file name of a path between `_` signs.
pub fn graph_params(path: &[u8]) -> (r: Vec<Vec<u8>>)
    ensures
        views(r@) == spec_graph_params(path@),
{
    let base = file_name(path);
    split_fields(base.as_slice(), UNDERSCORE)
}

/// The graph of a YAML file `x.yaml`, not one of the reversed graphs
/// `x.rev.yaml`.
pub open spec fn spec_is_direct_graph(path: Seq<u8>) -> bool {
    has_suffix(path, ".yaml".spec_bytes()) && !has_suffix(path, ".rev.yaml".spec_bytes())
}

/// Whether the path is a YAML graph and not a reversed graph.
pub fn is_direct_graph(path: &[u8]) -> (r: bool)
    ensures
        r == spec_is_direct_graph(path@),
{
    ends_with(path, ".yaml".as_bytes()) && !ends_with(path, ".rev.yaml".as_bytes())
}

/// Returns the path of the reversed graph of `x.yaml`: `x.rev.yaml`.
pub fn reversed_graph_path(path: &[u8]) -> (r: Vec<u8>)
    requires
        has_suffix(path@, ".yaml".spec_bytes()),
    ensures
        r@ == path@.take(path@.len() - ".yaml".spec_bytes().len()) + ".rev.yaml".spec_bytes(),
{
    let ext = ".yaml".as_bytes();
    let rev = ".rev.yaml".as_bytes();
    let mut r = copy_range(path, 0, path.len() - ext.len());
    let mut k: usize = 0;
    let ghost stem = r@;
    while k < rev.len()
        invariant
            k <= rev.len(),
            r@ == stem + rev@.take(k as int),
        decreases rev.len() - k,
    {
        r.push(rev[k]);
        proof {
            assert(r@ =~= stem + rev@.take(k + 1));
        }
        k = k + 1;
    }
    proof {
        assert(rev@.take(rev@.len() as int) =~= rev@);
    }
    r
}

/// The formats a graph file can have.
#[derive(Clone, Copy, Debug, PartialEq, Eq, Structural)]
pub enum DagFormat {
    /// A `.yaml` file.
    Yaml,
    /// A `.dot` file.
    Dot,
    /// Any other file: a WfCommons workflow.
    WfCommons,
}

/// The format of a graph file, by its extension.
pub open spec fn spec_dag_format(path: Seq<u8>) -> DagFormat {
    if has_suffix(path, ".yaml".spec_bytes()) {
        DagFormat::Yaml
    } else if has_suffix(path, ".dot".spec_bytes()) {
        DagFormat::Dot
    } else {
        DagFormat::WfCommons
    }
}

/// Returns the format of a graph file, by its extension.
pub fn dag_format(path: &[u8]) -> (r: DagFormat)
    ensures
        r == spec_dag_format(path@),
{
    if ends_with(path, ".yaml".as_bytes()) {
        DagFormat::Yaml
    } else if ends_with(path, ".dot".as_bytes()) {
        DagFormat::Dot
    } else {
        DagFormat::WfCommons
    }
}

/// The schedulers that an experiment can run.
#[derive(Clone, Copy, Debug, PartialEq, Eq, Structural)]
pub enum SchedulerKind {
    /// `simple`
    Simple,
    /// `simple-with-data`
    SimpleWithData,
    /// `heft`
    Heft,
    /// `heft_new`
    HeftNew,
    /// `heft_oct` (order experiments only)
    HeftOct,
    /// `peft`
    Peft,
    /// `lookahead`
    Lookahead,
    /// `dls`
    Dls,
    /// `dls_art`
    DlsArt,
}

/// The experiment tools, which accept different sets of scheduler names.
#[derive(Clone, Copy, Debug, PartialEq, Eq, Structural)]
pub enum ExperimentTool {
    /// The comparison of each graph with its reversed graph.
    ReverseComparison,
    /// The search for coefficients of the tuned DLS scheduler.
    CoefficientSearch,
    /// The experiments on task orders, which also run `heft_oct`.
    OrderExperiments,
}

/// The scheduler that a name selects in an experiment tool. Every tool
/// accepts `simple`, `simple-with-data`, `heft`, `heft_new`, `peft`,
/// `lookahead`, `dls` and `dls_art`; only the order experiments accept
/// `heft_oct`. Any other name is refused (the tool stops with "Wrong
/// scheduler").
pub open spec fn spec_scheduler_kind(tool: ExperimentTool, name: Seq<char>) -> Option<SchedulerKind> {
    if name == "simple"@ {
        Some(SchedulerKind::Simple)
    } else if name == "simple-with-data"@ {
        Some(SchedulerKind::SimpleWithData)
    } else if name == "heft"@ {
        Some(SchedulerKind::Heft)
    } else if name == "heft_new"@ {
        Some(SchedulerKind::HeftNew)
    } else if name == "heft_oct"@ && tool == ExperimentTool::OrderExperiments {
        Some(SchedulerKind::HeftOct)
    } else if name == "peft"@ {
        Some(SchedulerKind::Peft)
    } else if name == "lookahead"@ {
        Some(SchedulerKind::Lookahead)
    } else if name == "dls"@ {
        Some(SchedulerKind::Dls)
    } else if name == "dls_art"@ {
        Some(SchedulerKind::DlsArt)
    } else {
        None
    }
}

/// Returns the scheduler that a name selects in the experiment tool `tool`;
/// `None` for a name that the tool refuses.
pub fn scheduler_kind(tool: ExperimentTool, name: &String) -> (r: Option<SchedulerKind>)
    ensures
        r == spec_scheduler_kind(tool, name@),
{
    if name.eq(&"simple".to_owned()) {
        Some(SchedulerKind::Simple)
    } else if name.eq(&"simple-with-data".to_owned()) {
        Some(SchedulerKind::SimpleWithData)
    } else if name.eq(&"heft".to_owned()) {
        Some(SchedulerKind::Heft)
    } else if name.eq(&"heft_new".to_owned()) {
        Some(SchedulerKind::HeftNew)
    } else if name.eq(&"heft_oct".to_owned()) && tool == ExperimentTool::OrderExperiments {
        Some(SchedulerKind::HeftOct)
    } else if name.eq(&"peft".to_owned()) {
        Some(SchedulerKind::Peft)
    } else if name.eq(&"lookahead".to_owned()) {
        Some(SchedulerKind::Lookahead)
    } else if name.eq(&"dls".to_owned()) {
        Some(SchedulerKind::Dls)
    } else if name.eq(&"dls_art".to_owned()) {
        Some(SchedulerKind::DlsArt)
    } else {
        None
    }
}

/// The second space-separated field of a line of the generator's output:
/// the path of a generated graph.
pub open spec fn second_field(line: Seq<u8>) -> Option<Seq<u8>> {
    let fields = split_on(line, SPACE);
    if fields.len() >= 2 {
        Some(fields[1])
    } else {
        None
    }
}

/// The second fields of the lines that have one, in order.
pub open spec fn listed_files(lines: Seq<Seq<u8>>) -> Seq<Seq<u8>>
    decreases lines.len(),
{
    if lines.len() == 0 {
        Seq::empty()
    } else {
        let before = listed_files(lines.drop_last());
        match second_field(lines.last()) {
            Some(f) => before.push(f),
            None => before,
        }
    }
}

/// Returns the graph files that the generator lists in its output: the
/// second space-separated field of each line that has one.
pub fn generated_graph_files(stdout: &[u8]) -> (r: Vec<Vec<u8>>)
    ensures
        views(r@) == listed_files(split_on(stdout@, NEWLINE)),
{
    let lines = split_fields(stdout, NEWLINE);
    let mut r: Vec<Vec<u8>> = Vec::new();
    let mut i: usize = 0;
    while i < lines.len()
        invariant
            i <= lines.len(),
            views(lines@) == split_on(stdout@, NEWLINE),
            views(r@) == listed_files(views(lines@).take(i as int)),
        decreases lines.len() - i,
    {
        let fields = split_fields(lines[i].as_slice(), SPACE);
        let ghost old_r = r@;
        proof {
            assert(views(lines@).take(i + 1).drop_last() =~= views(lines@).take(i as int));
            assert(views(lines@).take(i + 1).last() == lines@[i as int]@);
        }
        if fields.len() >= 2 {
            let f = copy_range(fields[1].as_slice(), 0, fields[1].len());
            r.push(f);
            proof {
                assert(fields[1]@.subrange(0, fields[1]@.len() as int) =~= fields[1]@);
                assert(views(fields@)[1] == fields@[1]@);
                assert(views(r@) =~= views(old_r).push(f@));
            }
        }
        i = i + 1;
    }
    proof {
        assert(views(lines@).take(lines@.len() as int) =~= views(lines@));
    }
    r
}

/// Returns the graph files of one run of the generator: those it lists,
/// unless it exited with a non-zero code (a run that was interrupted, with
/// no exit code, is still read).
pub fn collected_graph_files(exit_code: Option<i32>, stdout: &[u8]) -> (r: Vec<Vec<u8>>)
    ensures
        exit_code matches Some(c) && c != 0 ==> r@.len() == 0,
        !(exit_code matches Some(c) && c != 0) ==> views(r@) == listed_files(split_on(stdout@, NEWLINE)),
{
    match exit_code {
        Some(c) => {
            if c != 0 {
                return Vec::new();
            }
        },
        None => {},
    }
    generated_graph_files(stdout)
}

/// The name by which the experiment tools select each scheduler.
pub open spec fn scheduler_name(kind: SchedulerKind) -> Seq<char> {
    match kind {
        SchedulerKind::Simple => "simple"@,
        SchedulerKind::SimpleWithData => "simple-with-data"@,
        SchedulerKind::Heft => "heft"@,
        SchedulerKind::HeftNew => "heft_new"@,
        SchedulerKind::HeftOct => "heft_oct"@,
        SchedulerKind::Peft => "peft"@,
        SchedulerKind::Lookahead => "lookahead"@,
        SchedulerKind::Dls => "dls"@,
        SchedulerKind::DlsArt => "dls_art"@,
    }
}

/// The tool runs the scheduler: every tool runs every scheduler but
/// `heft_oct`, which only the order experiments run.
pub open spec fn tool_runs(tool: ExperimentTool, kind: SchedulerKind) -> bool {
    kind != SchedulerKind::HeftOct || tool == ExperimentTool::OrderExperiments
}

/// A name selects a scheduler only when it is that scheduler's name and the
/// tool runs that scheduler; so two names never select the same scheduler.
pub proof fn lemma_scheduler_kind_selects_named(tool: ExperimentTool, name: Seq<char>)
    ensures
        spec_scheduler_kind(tool, name) matches Some(kind) ==> name == scheduler_name(kind) && tool_runs(tool, kind),
{
}

/// The name of every scheduler that the tool runs selects that scheduler.
pub proof fn lemma_scheduler_name_selects(tool: ExperimentTool, kind: SchedulerKind)
    requires
        tool_runs(tool, kind),
    ensures
        spec_scheduler_kind(tool, scheduler_name(kind)) == Some(kind),
{
    reveal_strlit("simple");
    reveal_strlit("simple-with-data");
    reveal_strlit("heft");
    reveal_strlit("heft_new");
    reveal_strlit("heft_oct");
    reveal_strlit("peft");
    reveal_strlit("lookahead");
    reveal_strlit("dls");
    reveal_strlit("dls_art");
    assert("simple"@ =~= seq!['s', 'i', 'm', 'p', 'l', 'e']);
    assert("simple-with-data"@ =~= seq!['s', 'i', 'm', 'p', 'l', 'e', '-', 'w', 'i', 't', 'h', '-', 'd', 'a', 't', 'a']);
    assert("heft"@ =~= seq!['h', 'e', 'f', 't']);
    assert("heft_new"@ =~= seq!['h', 'e', 'f', 't', '_', 'n', 'e', 'w']);
    assert("heft_oct"@ =~= seq!['h', 'e', 'f', 't', '_', 'o', 'c', 't']);
    assert("peft"@ =~= seq!['p', 'e', 'f', 't']);
    assert("lookahead"@ =~= seq!['l', 'o', 'o', 'k', 'a', 'h', 'e', 'a', 'd']);
    assert("dls"@ =~= seq!['d', 'l', 's']);
    assert("dls_art"@ =~= seq!['d', 'l', 's', '_', 'a', 'r', 't']);
    assert("heft"@ != "peft"@) by {
        assert("heft"@[0] != "peft"@[0]);
    }
    assert("heft_new"@ != "heft_oct"@) by {
        assert("heft_new"@[5] != "heft_oct"@[5]);
    }
}

/// A suffix of a suffix ends the text too.
proof fn lemma_suffix_of_concat(a: Seq<u8>, b: Seq<u8>, c: Seq<u8>)
    requires
        has_suffix(b, c),
    ensures
        has_suffix(a + b, c),
{
    assert((a + b).skip((a + b).len() - c.len()) =~= b.skip(b.len() - c.len()));
}

/// Every path that ends in `.yaml` is read as YAML, whatever comes before the
/// extension (reversed graphs `x.rev.yaml` included); a path that ends in
/// `.dot` is read as DOT; any other path is a WfCommons workflow.
pub proof fn lemma_dag_format_by_extension(path: Seq<u8>)
    ensures
        has_suffix(path, ".yaml".spec_bytes()) ==> spec_dag_format(path) == DagFormat::Yaml,
        has_suffix(path, ".dot".spec_bytes()) ==> spec_dag_format(path) == DagFormat::Dot,
        !has_suffix(path, ".yaml".spec_bytes()) && !has_suffix(path, ".dot".spec_bytes()) ==> spec_dag_format(path)
            == DagFormat::WfCommons,
{
    reveal_strlit(".yaml");
    reveal_strlit(".dot");
    assert(".yaml"@ =~= seq!['.', 'y', 'a', 'm', 'l']);
    assert(".dot"@ =~= seq!['.', 'd', 'o', 't']);
    assert(vstd::string::is_ascii(".yaml"));
    assert(vstd::string::is_ascii(".dot"));
    vstd::string::is_ascii_spec_bytes(".yaml");
    vstd::string::is_ascii_spec_bytes(".dot");
    assert(".yaml".spec_bytes() =~= seq![46u8, 121u8, 97u8, 109u8, 108u8]);
    assert(".dot".spec_bytes() =~= seq![46u8, 100u8, 111u8, 116u8]);
    if has_suffix(path, ".dot".spec_bytes()) && has_suffix(path, ".yaml".spec_bytes()) {
        assert(path.skip(path.len() - 4)[3] == path.skip(path.len() - 5)[4]);
    }
}

/// The reversed graph of a direct graph ends in `.yaml`, so it is read as
/// YAML, and it is not itself a direct graph.
pub proof fn lemma_reversed_graph_is_yaml(path: Seq<u8>)
    requires
        has_suffix(path, ".yaml".spec_bytes()),
    ensures
        ({
            let reversed = path.take(path.len() - ".yaml".spec_bytes().len()) + ".rev.yaml".spec_bytes();
            &&& has_suffix(reversed, ".yaml".spec_bytes())
            &&& spec_dag_format(reversed) == DagFormat::Yaml
            &&& !spec_is_direct_graph(reversed)
        }),
{
    reveal_strlit(".yaml");
    reveal_strlit(".rev.yaml");
    assert(".yaml"@ =~= seq!['.', 'y', 'a', 'm', 'l']);
    assert(".rev.yaml"@ =~= seq!['.', 'r', 'e', 'v', '.', 'y', 'a', 'm', 'l']);
    assert(vstd::string::is_ascii(".yaml"));
    assert(vstd::string::is_ascii(".rev.yaml"));
    vstd::string::is_ascii_spec_bytes(".yaml");
    vstd::string::is_ascii_spec_bytes(".rev.yaml");
    let yaml = ".yaml".spec_bytes();
    let rev = ".rev.yaml".spec_bytes();
    assert(yaml =~= seq![46u8, 121u8, 97u8, 109u8, 108u8]);
    assert(rev =~= seq![46u8, 114u8, 101u8, 118u8, 46u8, 121u8, 97u8, 109u8, 108u8]);
    let stem = path.take(path.len() - yaml.len());
    assert(rev.skip(rev.len() - yaml.len()) =~= yaml);
    lemma_suffix_of_concat(stem, rev, yaml);
    assert(rev.skip(0) =~= rev);
    lemma_suffix_of_concat(stem, rev, rev);
    lemma_dag_format_by_extension(stem + rev);
}

/// The file name of a path is its longest end without `/`: it ends the path,
/// holds no `/`, and is the whole path or follows a `/`.
pub proof fn lemma_base_name(path: Seq<u8>)
    ensures
        ({
            let base = base_name(path);
            &&& base.len() <= path.len()
            &&& base == path.skip(path.len() - base.len())
            &&& forall|j: int| 0 <= j < base.len() ==> base[j] != SLASH
            &&& (base.len() == path.len() || path[path.len() - base.len() - 1] == SLASH)
        }),
{
    crate::text::lemma_last_piece(path, SLASH);
}

/// The job name is the file name cut at its first `.`: it starts the file
/// name, holds no `.`, and is the whole file name or is followed by a `.`.
/// It does not depend on the directories of the path.
pub proof fn lemma_job_name(path: Seq<u8>, dir: Seq<u8>)
    ensures
        ({
            let base = base_name(path);
            let job = spec_job_name(path);
            &&& job.len() <= base.len()
            &&& job == base.take(job.len() as int)
            &&& forall|j: int| 0 <= j < job.len() ==> job[j] != DOT
            &&& (job.len() == base.len() || base[job.len() as int] == DOT)
        }),
        spec_job_name(dir + seq![SLASH] + path) == spec_job_name(path),
{
    crate::text::lemma_first_piece(base_name(path), DOT);
    lemma_base_name_after_slash(dir, path);
}

/// Putting a directory in front of a path keeps its file name.
pub proof fn lemma_base_name_after_slash(dir: Seq<u8>, path: Seq<u8>)
    ensures
        base_name(dir + seq![SLASH] + path) == base_name(path),
{
    let full = dir + seq![SLASH] + path;
    crate::text::lemma_last_piece(full, SLASH);
    crate::text::lemma_last_piece(path, SLASH);
    let a = base_name(full);
    let b = base_name(path);
    assert(full.skip(full.len() - path.len()) =~= path);
    if a.len() > b.len() {
        // `a` ends `full` and holds no `/`, so it cannot reach past the `/`
        // that precedes `b` (or the `/` in front of `path`).
        if b.len() == path.len() {
            assert(a[a.len() - b.len() - 1] == full[full.len() - b.len() - 1]);
        } else {
            assert(a[a.len() - b.len() - 1] == full[full.len() - b.len() - 1]);
            assert(full[full.len() - b.len() - 1] == path[path.len() - b.len() - 1]);
        }
    } else if a.len() < b.len() {
        assert(b[b.len() - a.len() - 1] == full[full.len() - a.len() - 1]);
    }
    assert(a =~= b);
}

/// The parameters of a graph, joined back with `_`, give exactly its file
/// name: none of them holds a `_` or a `/`, and none comes from a directory.
pub proof fn lemma_graph_params(path: Seq<u8>)
    ensures
        crate::text::join_on(spec_graph_params(path), UNDERSCORE) == base_name(path),
        forall|k: int, j: int|
            0 <= k < spec_graph_params(path).len() && 0 <= j < spec_graph_params(path)[k].len() ==> #[trigger] spec_graph_params(path)[k][j]
                != UNDERSCORE && spec_graph_params(path)[k][j] != SLASH,
{
    crate::text::lemma_join_split(base_name(path), UNDERSCORE);
    crate::text::lemma_split_on_pieces(base_name(path), UNDERSCORE);
    lemma_base_name(path);
    crate::text::lemma_pieces_within(base_name(path), UNDERSCORE);
}

/// A line lists a file exactly when it has a space; the file is what
/// follows the first space up to the next space or the end of the line.
pub proof fn lemma_second_field(line: Seq<u8>)
    ensures
        second_field(line) is Some <==> line.contains(SPACE),
        second_field(line) matches Some(f) ==> {
            let i = crate::text::first_index(line, SPACE);
            &&& 0 <= i < line.len()
            &&& line[i] == SPACE
            &&& forall|j: int| 0 <= j < i ==> line[j] != SPACE
            &&& i + 1 + f.len() <= line.len()
            &&& f == line.subrange(i + 1, i + 1 + f.len())
            &&& forall|j: int| 0 <= j < f.len() ==> f[j] != SPACE
            &&& (i + 1 + f.len() == line.len() || line[i + 1 + f.len()] == SPACE)
        },
{
    crate::text::lemma_first_index_bounds(line, SPACE);
    let i = crate::text::first_index(line, SPACE);
    if 0 <= i < line.len() {
        let rest = line.skip(i + 1);
        crate::text::lemma_first_piece(rest, SPACE);
        crate::text::lemma_split_on_pieces(rest, SPACE);
        assert(split_on(line, SPACE)[1] == split_on(rest, SPACE)[0]);
        let f = split_on(rest, SPACE)[0];
        assert(f =~= line.subrange(i + 1, i + 1 + f.len()));
        if i + 1 + f.len() < line.len() {
            assert(line[i + 1 + f.len()] == rest[f.len() as int]);
        }
        assert(line.contains(SPACE));
    } else {
        assert(split_on(line, SPACE).len() == 1);
        if line.contains(SPACE) {
            let j = choose|j: int| 0 <= j < line.len() && line[j] == SPACE;
            assert(line[j] != SPACE);
        }
    }
}

/// The files listed by two runs of lines, one after the other, are those of
/// the first followed by those of the second; one line lists its second
/// field, if it has one.
pub proof fn lemma_listed_files_concat(a: Seq<Seq<u8>>, b: Seq<Seq<u8>>)
    ensures
        listed_files(a + b) == listed_files(a) + listed_files(b),
    decreases b.len(),
{
    if b.len() == 0 {
        assert(a + b =~= a);
        assert(listed_files(a) + listed_files(b) =~= listed_files(a));
    } else {
        lemma_listed_files_concat(a, b.drop_last());
        assert((a + b).drop_last() =~= a + b.drop_last());
        assert((a + b).last() == b.last());
        match second_field(b.last()) {
            Some(f) => {
                assert(listed_files(a) + listed_files(b.drop_last()).push(f) =~= (listed_files(a) + listed_files(b.drop_last())).push(f));
            },
            None => {},
        }
    }
}

/// One line lists its second field, if it has one.
pub proof fn lemma_listed_files_single(line: Seq<u8>)
    ensures
        listed_files(seq![line]) == (match second_field(line) {
            Some(f) => seq![f],
            None => Seq::<Seq<u8>>::empty(),
        }),
{
    assert(seq![line].drop_last() =~= Seq::<Seq<u8>>::empty());
    assert(listed_files(Seq::<Seq<u8>>::empty()) == Seq::<Seq<u8>>::empty());
    assert(seq![line].last() == line);
    assert(Seq::<Seq<u8>>::empty().push(line) =~= seq![line]);
    match second_field(line) {
        Some(f) => {
            assert(Seq::<Seq<u8>>::empty().push(f) =~= seq![f]);
        },
        None => {},
    }
}

/// Number of items in each chunk of work when `len` items are shared among
/// `threads` threads.
pub open spec fn spec_chunk_size(len: int, threads: int) -> int {
    (len + threads) / threads
}

/// A chunk size is at least one item.
proof fn lemma_chunk_size_positive(len: int, threads: int)
    requires
        len >= 0,
        threads >= 1,
    ensures
        spec_chunk_size(len, threads) >= 1,
{
    assert((len + threads) / threads >= 1) by (nonlinear_arith)
        requires
            len >= 0,
            threads >= 1,
    ;
}

/// `(n + 1) * c == n * c + c`, and `0 * c == 0`.
proof fn lemma_mul_step(n: int, c: int)
    ensures
        (n + 1) * c == n * c + c,
        0 * c == 0,
{
    assert((n + 1) * c == n * c + c) by (nonlinear_arith);
    assert(0 * c == 0) by (nonlinear_arith);
}

/// Returns the bounds `[start, end)` of the chunks of work when `len` items
/// are cut into chunks of `(len + threads) / threads` items (the last chunk
/// may be shorter).
#[verifier::spinoff_prover]
pub fn chunk_bounds(len: usize, threads: usize) -> (r: Vec<(usize, usize)>)
    requires
        threads >= 1,
        len + threads <= usize::MAX,
    ensures
        r.len() == if len == 0 { 0 } else { (len - 1) / spec_chunk_size(len as int, threads as int) + 1 },
        forall|k: int|
            0 <= k < r.len() ==> #[trigger] r@[k].0 == k * spec_chunk_size(len as int, threads as int) && r@[k].1
                == chunk_end(k, spec_chunk_size(len as int, threads as int), len as int),
{
    let ghost c = spec_chunk_size(len as int, threads as int);
    proof {
        lemma_chunk_size_positive(len as int, threads as int);
        lemma_mul_step(0, c);
    }
    let size: usize = (len + threads) / threads;
    assert(size == c);
    let mut r: Vec<(usize, usize)> = Vec::new();
    let mut start: usize = 0;
    while start < len
        invariant
            size == c,
            c >= 1,
            start <= len,
            start < len ==> start == r.len() * c,
            len == 0 ==> r.len() == 0,
            len > 0 && start < len ==> r.len() <= (len - 1) / c,
            len > 0 && start >= len ==> r.len() == (len - 1) / c + 1,
            forall|k: int| 0 <= k < r.len() ==> #[trigger] r@[k].0 == k * c && r@[k].1 == chunk_end(k, c, len as int),
        decreases len - start,
    {
        let end: usize = if len - start >= size {
            start + size
        } else {
            len
        };
        let ghost n = r.len() as int;
        let ghost old_r = r@;
        proof {
            lemma_mul_step(n, c);
        }
        r.push((start, end));
        proof {
            assert(end == chunk_end(n, c, len as int));
            assert forall|k: int| 0 <= k < r.len() implies #[trigger] r@[k].0 == k * c && r@[k].1 == chunk_end(
                k,
                c,
                len as int,
            ) by {
                if k < n {
                    assert(r@[k] == old_r[k]);
                }
            }
            if end < len {
                lemma_div_bound(len - 1, c, n + 1);
            } else {
                lemma_div_exact(len - 1, c, n);
            }
        }
        start = end;
    }
    r
}

proof fn lemma_div_bound(x: int, c: int, m: int)
    requires
        c >= 1,
        m >= 0,
        m * c <= x,
    ensures
        m <= x / c,
{
    assert(m <= x / c) by (nonlinear_arith)
        requires
            c >= 1,
            m >= 0,
            m * c <= x,
    ;
}

proof fn lemma_div_exact(x: int, c: int, m: int)
    requires
        c >= 1,
        m >= 0,
        m * c <= x,
        x < (m + 1) * c,
    ensures
        x / c == m,
{
    assert(x / c == m) by (nonlinear_arith)
        requires
            c >= 1,
            m >= 0,
            m * c <= x,
            x < (m + 1) * c,
    ;
}

/// However many items there are, they are cut into at most `threads`
/// chunks, which cover `[0, len)` one after another.
pub proof fn lemma_chunks_fit_threads(len: nat, threads: nat)
    requires
        threads >= 1,
        len >= 1,
    ensures
        (len - 1) / spec_chunk_size(len as int, threads as int) + 1 <= threads,
        spec_chunk_size(len as int, threads as int) >= 1,
        spec_chunk_size(len as int, threads as int) == len / threads + 1,
{
    let c = spec_chunk_size(len as int, threads as int);
    assert(c >= 1 && c * threads > len - 1) by (nonlinear_arith)
        requires
            c == (len + threads) / threads,
            threads >= 1,
    ;
    assert((len - 1) / c + 1 <= threads) by (nonlinear_arith)
        requires
            c >= 1,
            c * threads > len - 1,
            len >= 1,
    ;
    vstd::arithmetic::div_mod::lemma_div_plus_one(len as int, threads as int);
}

/// The end of chunk `k` of `len` items cut into chunks of `size`.
pub open spec fn chunk_end(k: int, size: int, len: int) -> int {
    if (k + 1) * size <= len {
        (k + 1) * size
    } else {
        len
    }
}

/// The chunks follow one another without gaps, none is empty, and the last
/// one ends at the last item.
pub proof fn lemma_chunks_partition(len: nat, threads: nat)
    requires
        threads >= 1,
        len >= 1,
    ensures
        ({
            let c = spec_chunk_size(len as int, threads as int);
            let count = (len - 1) / c + 1;
            &&& forall|k: int| 0 <= k < count - 1 ==> #[trigger] chunk_end(k, c, len as int) == (k + 1) * c
            &&& forall|k: int| 0 <= k < count ==> #[trigger] chunk_end(k, c, len as int) > k * c
            &&& chunk_end(count - 1, c, len as int) == len
        }),
{
    let c = spec_chunk_size(len as int, threads as int);
    lemma_chunks_fit_threads(len, threads);
    let count = (len - 1) / c + 1;
    assert(c * ((len - 1) / c) <= len - 1 && len - 1 < c * ((len - 1) / c) + c) by (nonlinear_arith)
        requires
            c >= 1,
            len >= 1,
    ;
    assert forall|k: int| 0 <= k < count - 1 implies #[trigger] chunk_end(k, c, len as int) == (k + 1) * c by {
        assert((k + 1) * c <= ((len - 1) / c) * c) by (nonlinear_arith)
            requires
                0 <= k < (len - 1) / c,
                c >= 1,
        ;
    }
    assert forall|k: int| 0 <= k < count implies #[trigger] chunk_end(k, c, len as int) > k * c by {
        assert(k * c <= ((len - 1) / c) * c && (k + 1) * c == k * c + c) by (nonlinear_arith)
            requires
                0 <= k <= (len - 1) / c,
                c >= 1,
        ;
    }
    assert(count * c >= len) by (nonlinear_arith)
        requires
            count == (len - 1) / c + 1,
            c * ((len - 1) / c) <= len - 1,
            len - 1 < c * ((len - 1) / c) + c,
            c >= 1,
    ;
    assert((count - 1) * c <= len - 1) by (nonlinear_arith)
        requires
            count == (len - 1) / c + 1,
            c * ((len - 1) / c) <= len - 1,
    ;
}

/// Returns the positions `i >= 1` at which the task order differs from the
/// order at `i - 1`.
pub fn order_changes(orders: &Vec<Vec<usize>>) -> (r: Vec<usize>)
    ensures
        forall|k: int| 0 <= k < r.len() ==> 1 <= #[trigger] r@[k] < orders.len() && orders@[r@[k] as int]@ != orders@[r@[k] - 1]@,
        forall|i: int| #![trigger orders@[i]] 1 <= i < orders.len() && orders@[i]@ != orders@[i - 1]@ ==> r@.contains(i as usize),
        forall|p: int, q: int| 0 <= p < q < r.len() ==> r@[p] < r@[q],
{
    let mut r: Vec<usize> = Vec::new();
    if orders.len() == 0 {
        return r;
    }
    let mut i: usize = 1;
    while i < orders.len()
        invariant
            1 <= i <= orders.len(),
            forall|k: int| 0 <= k < r.len() ==> 1 <= #[trigger] r@[k] < i && orders@[r@[k] as int]@ != orders@[r@[k] - 1]@,
            forall|j: int| #![trigger orders@[j]] 1 <= j < i && j < orders.len() && orders@[j]@ != orders@[j - 1]@ ==> r@.contains(j as usize),
            forall|p: int, q: int| 0 <= p < q < r.len() ==> r@[p] < r@[q],
        decreases orders.len() - i,
    {
        if !same_order(&orders[i], &orders[i - 1]) {
            let ghost old_r = r@;
            r.push(i);
            proof {
                assert(r@[r@.len() - 1] == i);
                assert forall|j: int| #![trigger orders@[j]] 1 <= j < i + 1 && j < orders.len() && orders@[j]@ != orders@[j - 1]@ implies r@.contains(j as usize) by {
                    if j < i {
                        assert(old_r.contains(j as usize));
                        let w = choose|w: int| 0 <= w < old_r.len() && old_r[w] == j as usize;
                        assert(r@[w] == j as usize);
                    }
                }
            }
        }
        i = i + 1;
    }
    r
}

/// Whether two task orders are the same.
fn same_order(a: &Vec<usize>, b: &Vec<usize>) -> (r: bool)
    ensures
        r == (a@ == b@),
{
    if a.len() != b.len() {
        return false;
    }
    let mut k: usize = 0;
    while k < a.len()
        invariant
            a.len() == b.len(),
            k <= a.len(),
            forall|j: int| 0 <= j < k ==> a@[j] == b@[j],
        decreases a.len() - k,
    {
        if a[k] != b[k] {
            return false;
        }
        k = k + 1;
    }
    proof {
        assert(a@ =~= b@);
    }
    true
}

} // verus!

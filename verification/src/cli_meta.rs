//! The commands of a chain on the command line: `scan c:\ filter *.jpg export
//! "Plain list" out.txt`.
//!
//! `scan` and `load` start a subject, and what follows is done with it: `filter`
//! sets its filter, `export` writes a report of it and `save` a snapshot.
use vstd::prelude::*;
use vstd::string::*;

use crate::export_error::ExportError;
use crate::filter::Filter;
use crate::filter_ast;
use crate::filter_ast::{FileClass, ParseWarning, WarningView};
use crate::filter_grammar;
use crate::filter_parse;
use crate::snapshot;
use crate::snapshot::{ScanMetadata, Snapshot};
use crate::snapshot_format::{MetaView, SnapshotError, SnapshotView};
use crate::template;
use crate::template::{ExportTemplate, TemplateContext, TemplateView};
use crate::template_grammar;
use crate::text;
use crate::tree::Tree;
use crate::FileTime;
use crate::NodeId;

verus! {

/// What the command `help` prints. The first line is the title and nothing more.
pub const HELP: &'static str =
    "RustySpaceSniffer command line\n\nGUI:        rss                                (opens the start dialog)\nHeadless:   rss [--headless] scan <PATH> --export csv|json [--out <FILE>|OUT]\nAutomation: rss [scan <PATH> | load <FILE.rssnap>]\n                [filter \"<EXPR>\"]               (binds to the preceding scan/load)\n                [export \"<CONFIG NAME>\" <DEST>] (named config, case-sensitive)\n                [save <PATH.rssnap>]\n                [autoclose]                     (quit after all exports)\n\nBuilt-in export configurations: Grouped by folder, Plain list\nExit codes: 0 ok, 1 scan/export error, 2 usage error.";

/// A command.
#[derive(Debug, PartialEq, Eq)]
pub enum Cmd {
    Scan(String),
    Load(String),
    Filter(String),
    Export { config: String, dest: String },
    Save(String),
    Autoclose,
}

/// A command in mathematical terms.
pub enum CmdView {
    Scan(Seq<char>),
    Load(Seq<char>),
    Filter(Seq<char>),
    Export { config: Seq<char>, dest: Seq<char> },
    Save(Seq<char>),
    Autoclose,
}

impl View for Cmd {
    type V = CmdView;

    open spec fn view(&self) -> CmdView {
        match *self {
            Cmd::Scan(p) => CmdView::Scan(p@),
            Cmd::Load(p) => CmdView::Load(p@),
            Cmd::Filter(e) => CmdView::Filter(e@),
            Cmd::Export { config, dest } => CmdView::Export { config: config@, dest: dest@ },
            Cmd::Save(p) => CmdView::Save(p@),
            Cmd::Autoclose => CmdView::Autoclose,
        }
    }
}

/// Commands in mathematical terms.
pub open spec fn cmd_views(v: Seq<Cmd>) -> Seq<CmdView> {
    Seq::new(v.len(), |i: int| v[i]@)
}

/// Whether an argument is one of the flags that may stand before a command.
pub open spec fn is_global_flag(a: Seq<char>) -> bool {
    a == "--headless"@ || a == "--console"@
}

/// The arguments without the flags in front.
pub open spec fn without_flags(args: Seq<Seq<char>>) -> Seq<Seq<char>>
    decreases args.len(),
{
    if args.len() > 0 && is_global_flag(args[0]) {
        without_flags(args.drop_first())
    } else {
        args
    }
}

/// Whether an argument is a command.
pub open spec fn is_keyword(a: Seq<char>) -> bool {
    a == "scan"@ || a == "load"@ || a == "filter"@ || a == "export"@ || a == "save"@ || a
        == "autoclose"@
}

/// How many flags stand in front of the arguments.
fn count_flags(args: &[String]) -> (n: usize)
    ensures
        n <= args@.len(),
        without_flags(text::texts(args@)) == text::texts(args@).skip(n as int),
{
    let ghost all = text::texts(args@);
    let mut n: usize = 0;
    proof {
        assert(all.skip(0) =~= all);
    }
    while n < args.len() && (text::equals(args[n].as_str(), "--headless") || text::equals(
        args[n].as_str(),
        "--console",
    ))
        invariant
            n <= args@.len(),
            all == text::texts(args@),
            without_flags(all) == without_flags(all.skip(n as int)),
        decreases args@.len() - n,
    {
        proof {
            assert(all.skip(n as int)[0] == args@[n as int]@);
            assert(all.skip(n as int).drop_first() =~= all.skip(n + 1));
        }
        n = n + 1;
    }
    proof {
        if n < args@.len() {
            assert(all.skip(n as int)[0] == args@[n as int]@);
        }
    }
    n
}

fn keyword(a: &str) -> (r: bool)
    ensures
        r == is_keyword(a@),
{
    text::equals(a, "scan") || text::equals(a, "load") || text::equals(a, "filter")
        || text::equals(a, "export") || text::equals(a, "save") || text::equals(a, "autoclose")
}

/// Whether arguments are a chain of commands: `load`, `help` and `autoclose`
/// start one, and so does `scan` if another command follows the path.
pub open spec fn meta_form(args: Seq<Seq<char>>) -> bool {
    let rest = without_flags(args);
    rest.len() > 0 && (rest[0] == "load"@ || rest[0] == "help"@ || rest[0] == "autoclose"@ || (
    rest[0] == "scan"@ && exists|i: int| 2 <= i < rest.len() && is_keyword(#[trigger] rest[i])))
}

/// Whether arguments are a chain of commands.
pub fn is_meta_form(args: &[String]) -> (r: bool)
    ensures
        r == meta_form(text::texts(args@)),
{
    let n: usize = count_flags(args);
    let ghost all = text::texts(args@);
    let ghost rest = all.skip(n as int);
    let len: usize = args.len();
    if n >= len {
        return false;
    }
    let first = args[n].as_str();
    proof {
        assert(rest[0] == first@);
    }
    if text::equals(first, "load") || text::equals(first, "help") || text::equals(
        first,
        "autoclose",
    ) {
        return true;
    }
    if !text::equals(first, "scan") {
        return false;
    }
    let mut i: usize = n;
    while i < len
        invariant
            n <= i <= len,
            len == args@.len(),
            all == text::texts(args@),
            rest == all.skip(n as int),
            rest == without_flags(all),
            rest[0] == "scan"@,
            forall|j: int| 2 <= j < i - n ==> !is_keyword(#[trigger] rest[j]),
        decreases len - i,
    {
        if i - n >= 2 && keyword(args[i].as_str()) {
            proof {
                assert(rest[i - n] == args@[i as int]@);
            }
            return true;
        }
        proof {
            assert(rest[i - n] == args@[i as int]@);
        }
        i = i + 1;
    }
    false
}

/// The commands that arguments stand for, or what is wrong with them.
pub open spec fn commands(args: Seq<Seq<char>>) -> Result<Seq<CmdView>, Seq<char>>
    decreases args.len(),
{
    if args.len() == 0 {
        Ok(Seq::empty())
    } else if args[0] == "scan"@ {
        if args.len() < 2 {
            Err("scan: missing <path>"@)
        } else {
            chained(CmdView::Scan(args[1]), commands(args.skip(2)))
        }
    } else if args[0] == "load"@ {
        if args.len() < 2 {
            Err("load: missing <file>"@)
        } else {
            chained(CmdView::Load(args[1]), commands(args.skip(2)))
        }
    } else if args[0] == "filter"@ {
        if args.len() < 2 {
            Err("filter: missing <expr>"@)
        } else {
            chained(CmdView::Filter(args[1]), commands(args.skip(2)))
        }
    } else if args[0] == "export"@ {
        if args.len() < 2 {
            Err("export: missing <config name>"@)
        } else if args.len() < 3 {
            Err("export: missing <dest file>"@)
        } else {
            chained(
                CmdView::Export { config: args[1], dest: args[2] },
                commands(args.skip(3)),
            )
        }
    } else if args[0] == "save"@ {
        if args.len() < 2 {
            Err("save: missing <path>"@)
        } else {
            chained(CmdView::Save(args[1]), commands(args.skip(2)))
        }
    } else if args[0] == "autoclose"@ {
        chained(CmdView::Autoclose, commands(args.skip(1)))
    } else {
        Err("unknown command `"@ + args[0] + "` (try `rss help`)"@)
    }
}

/// A command in front of others.
pub open spec fn chained(c: CmdView, rest: Result<Seq<CmdView>, Seq<char>>) -> Result<
    Seq<CmdView>,
    Seq<char>,
> {
    match rest {
        Ok(cs) => Ok(seq![c] + cs),
        Err(e) => Err(e),
    }
}

/// Commands behind others.
spec fn behind(cs: Seq<CmdView>, rest: Result<Seq<CmdView>, Seq<char>>) -> Result<
    Seq<CmdView>,
    Seq<char>,
> {
    match rest {
        Ok(more) => Ok(cs + more),
        Err(e) => Err(e),
    }
}

/// One more command behind those read.
proof fn lemma_behind(cs: Seq<CmdView>, c: CmdView, rest: Result<Seq<CmdView>, Seq<char>>)
    ensures
        behind(cs, chained(c, rest)) == behind(cs.push(c), rest),
{
    if let Ok(more) = rest {
        assert(cs + (seq![c] + more) =~= cs.push(c) + more);
    }
}

/// The next command and how many arguments it takes.
fn next_command(args: &[String], i: usize) -> (r: Result<(Cmd, usize), String>)
    requires
        i < args@.len(),
    ensures
        ({
            let rest = text::texts(args@).skip(i as int);
            match r {
                Ok((c, n)) => 1 <= n <= rest.len() && commands(rest) == chained(
                    c@,
                    commands(rest.skip(n as int)),
                ),
                Err(e) => commands(rest) == Err::<Seq<CmdView>, _>(e@),
            }
        }),
{
    let ghost rest = text::texts(args@).skip(i as int);
    let word = args[i].as_str();
    let left: usize = args.len() - i;
    proof {
        assert(rest[0] == word@);
        assert(forall|k: int| 0 <= k < rest.len() ==> #[trigger] rest[k] == args@[i + k]@);
    }
    if text::equals(word, "scan") {
        if left < 2 {
            return Err("scan: missing <path>".to_owned());
        }
        return Ok((Cmd::Scan(args[i + 1].clone()), 2));
    }
    if text::equals(word, "load") {
        if left < 2 {
            return Err("load: missing <file>".to_owned());
        }
        return Ok((Cmd::Load(args[i + 1].clone()), 2));
    }
    if text::equals(word, "filter") {
        if left < 2 {
            return Err("filter: missing <expr>".to_owned());
        }
        return Ok((Cmd::Filter(args[i + 1].clone()), 2));
    }
    if text::equals(word, "export") {
        if left < 2 {
            return Err("export: missing <config name>".to_owned());
        }
        if left < 3 {
            return Err("export: missing <dest file>".to_owned());
        }
        return Ok(
            (Cmd::Export { config: args[i + 1].clone(), dest: args[i + 2].clone() }, 3),
        );
    }
    if text::equals(word, "save") {
        if left < 2 {
            return Err("save: missing <path>".to_owned());
        }
        return Ok((Cmd::Save(args[i + 1].clone()), 2));
    }
    if text::equals(word, "autoclose") {
        return Ok((Cmd::Autoclose, 1));
    }
    let mut e = "unknown command `".to_owned();
    e.append(word);
    e.append("` (try `rss help`)");
    Err(e)
}

/// Reads a chain of commands.
pub fn parse(args: &[String]) -> (r: Result<Vec<Cmd>, String>)
    ensures
        match r {
            Ok(cs) => commands(without_flags(text::texts(args@))) == Ok::<_, Seq<char>>(
                cmd_views(cs@),
            ),
            Err(e) => commands(without_flags(text::texts(args@))) == Err::<Seq<CmdView>, _>(e@),
        },
{
    let ghost all = text::texts(args@);
    let n: usize = count_flags(args);
    let ghost goal = commands(all.skip(n as int));
    let mut cs: Vec<Cmd> = Vec::new();
    let mut i: usize = n;
    proof {
        assert(cmd_views(cs@) =~= Seq::empty());
        if let Ok(more) = goal {
            assert(cmd_views(cs@) + more =~= more);
        }
    }
    while i < args.len()
        invariant
            n <= i <= args@.len(),
            all == text::texts(args@),
            goal == behind(cmd_views(cs@), commands(all.skip(i as int))),
            goal == commands(without_flags(all)),
        decreases args@.len() - i,
    {
        match next_command(args, i) {
            Ok((c, used)) => {
                let ghost before = cs@;
                proof {
                    assert(all.skip(i as int).skip(used as int) =~= all.skip(i + used));
                    lemma_behind(cmd_views(before), c@, commands(all.skip(i + used)));
                }
                cs.push(c);
                proof {
                    assert(cmd_views(cs@) =~= cmd_views(before).push(c@));
                }
                i = i + used;
            },
            Err(e) => {
                return Err(e);
            },
        }
    }
    proof {
        assert(all.skip(i as int) =~= Seq::empty());
        assert(cmd_views(cs@) + Seq::<CmdView>::empty() =~= cmd_views(cs@));
    }
    Ok(cs)
}

/// What is to be done with arguments that are a chain of commands.
pub enum Plan {
    /// They are wrong: the message goes out and the exit code is 2.
    Usage(String),
    /// The help goes out.
    Help,
    /// The commands are to be run.
    Run(Vec<Cmd>),
}

/// What is to be done with arguments that are a chain of commands. `help`, and a
/// chain without commands, print the help.
pub fn plan(args: &[String]) -> (p: Plan)
    ensures
        ({
            let rest = without_flags(text::texts(args@));
            if rest.len() == 0 || rest[0] == "help"@ {
                p is Help
            } else {
                match commands(rest) {
                    Ok(cs) => p matches Plan::Run(v) && cmd_views(v@) == cs,
                    Err(e) => p matches Plan::Usage(m) && m@ == e,
                }
            }
        }),
{
    let n: usize = count_flags(args);
    let ghost rest = text::texts(args@).skip(n as int);
    if n >= args.len() {
        return Plan::Help;
    }
    proof {
        assert(rest[0] == args@[n as int]@);
    }
    if text::equals(args[n].as_str(), "help") {
        return Plan::Help;
    }
    match parse(args) {
        Ok(cs) => Plan::Run(cs),
        Err(e) => Plan::Usage(e),
    }
}

/// What `filter`, `export` and `save` are done with.
pub struct Subject {
    pub tree: Tree,
    pub root: NodeId,
    pub filter: String,
}

impl Subject {
    /// The root is that of the tree.
    pub open spec fn wf(&self) -> bool {
        &&& self.tree@.wf()
        &&& self.tree@.root == Some(self.root)
    }
}

/// The run of a chain of commands.
pub struct Session {
    pub subject: Option<Subject>,
}

/// What is to be done for a command.
pub enum Action {
    /// Nothing.
    Nothing,
    /// The path is to be scanned.
    Scan(String),
    /// The snapshot file is to be loaded.
    Load(String),
    /// The warnings are to go out.
    Warn(Vec<String>),
    /// A report is to be written, by the template.
    Export { template: ExportTemplate, dest: String },
    /// A snapshot is to be written.
    Save(String),
}

/// The template of a name; here the case of the letters counts.
pub open spec fn template_named(name: Seq<char>) -> Option<TemplateView> {
    if name == template::grouped_view().name {
        Some(template::grouped_view())
    } else if name == template::plain_view().name {
        Some(template::plain_view())
    } else {
        None
    }
}

/// The warnings of a filter in words.
pub open spec fn warning_lines(ws: Seq<WarningView>) -> Seq<Seq<char>> {
    Seq::new(
        ws.len(),
        |i: int|
            "at "@ + text::dec(ws[i].span.start as nat) + ".."@ + text::dec(
                ws[i].span.end as nat,
            ) + ": "@ + ws[i].message,
    )
}

impl Session {
    /// A run that has no subject yet.
    pub fn new() -> (s: Self)
        ensures
            s.wf(),
            s.subject is None,
    {
        Session { subject: None }
    }

    /// The subject is in order.
    pub open spec fn wf(&self) -> bool {
        self.subject matches Some(s) ==> s.wf()
    }

    /// What is to be done for a command, or why it cannot be done.
    pub fn step(&mut self, cmd: &Cmd) -> (r: Result<Action, String>)
        requires
            old(self).wf(),
        ensures
            final(self).wf(),
            match (cmd@, old(self).subject) {
                (CmdView::Filter(e), Some(s)) => {
                    &&& final(self).subject matches Some(t) && t.tree == s.tree && t.root == s.root
                        && t.filter@ == e
                    &&& r matches Ok(Action::Warn(lines)) && text::texts(lines@) == warning_lines(
                        filter_grammar::parsed(e, Seq::empty()).1,
                    )
                },
                (c, subject) => {
                    &&& final(self).subject == subject
                    &&& match c {
                        CmdView::Scan(p) => r matches Ok(Action::Scan(q)) && q@ == p,
                        CmdView::Load(p) => r matches Ok(Action::Load(q)) && q@ == p,
                        CmdView::Filter(_) => r matches Err(e) && e@
                            == "filter must follow a scan or load command"@,
                        CmdView::Export { config, dest } => if subject is None {
                            r matches Err(e) && e@ == "export must follow a scan or load command"@
                        } else {
                            match template_named(config) {
                                Some(t) => r matches Ok(Action::Export { template, dest: d })
                                    && template@ == t && d@ == dest,
                                None => r matches Err(e) && e@ == "unknown export configuration `"@
                                    + config + "` (see `rss help`)"@,
                            }
                        },
                        CmdView::Save(p) => if subject is None {
                            r matches Err(e) && e@ == "save must follow a scan or load command"@
                        } else {
                            r matches Ok(Action::Save(q)) && q@ == p
                        },
                        CmdView::Autoclose => r matches Ok(a) && a is Nothing,
                    }
                },
            },
    {
        match cmd {
            Cmd::Scan(p) => Ok(Action::Scan(p.clone())),
            Cmd::Load(p) => Ok(Action::Load(p.clone())),
            Cmd::Filter(e) => self.set_filter(e),
            Cmd::Export { config, dest } => {
                if self.subject.is_none() {
                    return Err("export must follow a scan or load command".to_owned());
                }
                if text::equals(config.as_str(), "Grouped by folder") {
                    return Ok(
                        Action::Export {
                            template: ExportTemplate::grouped_by_folder(),
                            dest: dest.clone(),
                        },
                    );
                }
                if text::equals(config.as_str(), "Plain list") {
                    return Ok(
                        Action::Export { template: ExportTemplate::plain_list(), dest: dest.clone() },
                    );
                }
                let mut e = "unknown export configuration `".to_owned();
                e.append(config.as_str());
                e.append("` (see `rss help`)");
                Err(e)
            },
            Cmd::Save(p) => {
                if self.subject.is_none() {
                    return Err("save must follow a scan or load command".to_owned());
                }
                Ok(Action::Save(p.clone()))
            },
            Cmd::Autoclose => Ok(Action::Nothing),
        }
    }

    fn set_filter(&mut self, expr: &String) -> (r: Result<Action, String>)
        requires
            old(self).wf(),
        ensures
            final(self).wf(),
            match old(self).subject {
                Some(s) => {
                    &&& final(self).subject matches Some(t) && t.tree == s.tree && t.root == s.root
                        && t.filter@ == expr@
                    &&& r matches Ok(Action::Warn(lines)) && text::texts(lines@) == warning_lines(
                        filter_grammar::parsed(expr@, Seq::empty()).1,
                    )
                },
                None => {
                    &&& final(self).subject is None
                    &&& r matches Err(e) && e@ == "filter must follow a scan or load command"@
                },
            },
    {
        let subject = self.subject.take();
        match subject {
            None => Err("filter must follow a scan or load command".to_owned()),
            Some(s) => {
                let no_classes: &[FileClass] = &[];
                let filter = Filter::parse(expr.as_str(), no_classes);
                let lines = describe_all(filter.warnings());
                proof {
                    assert(filter_ast::class_views(no_classes@) =~= Seq::empty());
                }
                self.subject = Some(
                    Subject { tree: s.tree, root: s.root, filter: expr.clone() },
                );
                Ok(Action::Warn(lines))
            },
        }
    }

    /// Takes a scanned tree as the subject; a tree without a root is none.
    pub fn scanned(&mut self, tree: Tree) -> (r: Result<(), String>)
        requires
            old(self).wf(),
            tree@.wf(),
        ensures
            final(self).wf(),
            match tree@.root {
                Some(root) => {
                    &&& r is Ok
                    &&& final(self).subject matches Some(s) && s.tree == tree && s.root == root
                        && s.filter@.len() == 0
                },
                None => {
                    &&& r matches Err(e) && e@ == "scan produced no root node"@
                    &&& final(self).subject == old(self).subject
                },
            },
    {
        match tree.root() {
            Some(root) => {
                self.subject = Some(Subject { tree, root, filter: String::new() });
                Ok(())
            },
            None => Err("scan produced no root node".to_owned()),
        }
    }

    /// Takes the tree and the filter of a snapshot file as the subject.
    pub fn loaded(&mut self, bytes: &[u8]) -> (r: Result<(), SnapshotError>)
        requires
            old(self).wf(),
        ensures
            final(self).wf(),
            match snapshot::decoding(bytes@) {
                Err(e) => r == Err::<(), _>(e) && final(self).subject == old(self).subject,
                Ok(w) => match w.tree {
                    None => r == Err::<(), _>(SnapshotError::EmptyTree) && final(self).subject
                        == old(self).subject,
                    Some(data) => {
                        &&& r is Ok
                        &&& final(self).subject matches Some(s) && s.tree@.data(s.root) == data
                            && s.filter@ == w.filter
                    },
                },
            },
    {
        let snap = match Snapshot::read_from(bytes) {
            Ok(snap) => snap,
            Err(e) => {
                return Err(e);
            },
        };
        match snap.tree.root() {
            Some(root) => {
                self.subject = Some(Subject { tree: snap.tree, root, filter: snap.filter });
                Ok(())
            },
            None => Err(SnapshotError::EmptyTree),
        }
    }
}

impl Default for Session {
    fn default() -> (s: Self)
        ensures
            s.wf(),
            s.subject is None,
    {
        Session::new()
    }
}

fn describe_all(ws: &[ParseWarning]) -> (v: Vec<String>)
    ensures
        text::texts(v@) == warning_lines(filter_parse::warning_views(ws@)),
{
    let mut v: Vec<String> = Vec::new();
    for i in 0..ws.len()
        invariant
            v@.len() == i,
            forall|j: int|
                0 <= j < i ==> (#[trigger] v@[j])@ == warning_lines(
                    filter_parse::warning_views(ws@),
                )[j],
    {
        v.push(ws[i].describe());
    }
    proof {
        assert(text::texts(v@) =~= warning_lines(filter_parse::warning_views(ws@)));
    }
    v
}

impl Subject {
    /// The filter that a report states: none if there is no text.
    pub open spec fn stated_filter(&self) -> Option<Seq<char>> {
        if self.filter@.len() == 0 {
            None
        } else {
            Some(self.filter@)
        }
    }

    /// Appends a report to `out`.
    pub fn render(&self, template: &ExportTemplate, now: FileTime, out: &mut Vec<u8>) -> (r: Result<
        (),
        ExportError,
    >)
        requires
            self.wf(),
        ensures
            ({
                let (bytes, mistake) = template::report(
                    self.tree@,
                    self.root,
                    template@,
                    self.stated_filter(),
                    now,
                );
                &&& final(out)@ == old(out)@ + bytes
                &&& match r {
                    Ok(_) => mistake is None,
                    Err(ExportError::Template(e)) => mistake == Some(
                        (template_grammar::section_of(e), template_grammar::mistake(e)),
                    ),
                    Err(_) => false,
                }
            }),
    {
        let filter = if self.filter.as_str().unicode_len() == 0 {
            None
        } else {
            Some(self.filter.as_str())
        };
        let context = TemplateContext { filter, now };
        template::render_template(&self.tree, self.root, template, &context, out)
    }

    /// Appends a snapshot to `out`; nothing is known of the scan any more.
    pub fn save(&self, tool_version: &str, out: &mut Vec<u8>) -> (r: Result<(), SnapshotError>)
        requires
            self.wf(),
        ensures
            match snapshot::encoding(
                SnapshotView {
                    tree: Some(self.tree@.data(self.root)),
                    filter: self.filter@,
                    zoom_path: Seq::empty(),
                    meta: MetaView {
                        tool_version: tool_version@,
                        volume_serial: 0,
                        started: 0,
                        finished: 0,
                    },
                },
            ) {
                Ok(b) => r is Ok && final(out)@ == old(out)@ + b,
                Err(e) => r == Err::<(), _>(e) && final(out)@ == old(out)@,
            },
    {
        let meta = ScanMetadata {
            tool_version: tool_version.to_owned(),
            volume_serial: 0,
            started: 0,
            finished: 0,
        };
        let mut snap = Snapshot::new(self.tree.clone(), meta);
        snap.filter = self.filter.clone();
        proof {
            assert(snap@.zoom_path =~= Seq::empty());
        }
        snap.write_to(out)
    }
}

} // verus!

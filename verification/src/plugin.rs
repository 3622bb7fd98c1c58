//! Configuration of the external plugin processes.
//!
//! A plugin is a script or binary under one of the plugin folders; its
//! interpreter follows from the file extension, and the routing arguments
//! may override the interpreter and the script path before the first
//! `--`-prefixed argument.  This module makes those decisions; spawning the
//! process, and probing the file system for the resolved path, are the
//! caller's work.

use vstd::prelude::*;
use crate::geo::Point;
use crate::text::chars_of;
use crate::text::str_eq;
use crate::text::string_from_chars;

verus! {

/// The concatenation of a list of per-shard results.
pub open spec fn concat_all(results: Seq<Seq<Point>>) -> Seq<Point>
    decreases results.len(),
{
    if results.len() == 0 {
        Seq::empty()
    } else {
        concat_all(results.drop_last()) + results.last()
    }
}

/// Joins per-shard plugin results into one route, in shard order.
pub fn flatten_runs(results: &Vec<Vec<Point>>) -> (out: Vec<Point>)
    ensures
        out@ == concat_all(results@.map_values(|v: Vec<Point>| v@)),
{
    let ghost mapped = results@.map_values(|v: Vec<Point>| v@);
    let mut out: Vec<Point> = Vec::new();
    let s_end: usize = results.len();
    for s in 0..s_end
        invariant
            s_end == results@.len(),
            mapped == results@.map_values(|v: Vec<Point>| v@),
            out@ == concat_all(mapped.take(s as int)),
    {
        let ghost before = out@;
        let part = &results[s];
        let p_end: usize = part.len();
        for t in 0..p_end
            invariant
                p_end == part@.len(),
                part == results@[s as int],
                out@ =~= before + part@.take(t as int),
        {
            out.push(part[t]);
            proof {
                assert(part@.take(t as int + 1) =~= part@.take(t as int).push(part@[t as int]));
                assert(out@ =~= before + part@.take(t as int + 1));
            }
        }
        proof {
            assert(part@.take(p_end as int) =~= part@);
            assert(mapped.take(s as int + 1).drop_last() =~= mapped.take(s as int));
            assert(mapped.take(s as int + 1).last() == part@);
            assert(out@ =~= concat_all(mapped.take(s as int + 1)));
        }
    }
    proof {
        assert(mapped.take(s_end as int) =~= mapped);
    }
    out
}

/// Drops a duplicated route endpoint: when the parsed route starts and ends
/// on the same coordinate, the trailing copy is removed.
pub fn trim_closed_route(route: &Vec<Point>) -> (out: Vec<Point>)
    ensures
        route@.len() >= 1 && route@.first() == route@.last() ==> out@ == route@.drop_last(),
        !(route@.len() >= 1 && route@.first() == route@.last()) ==> out@ == route@,
{
    let mut out = route.clone();
    if out.len() >= 1 {
        let first = out[0];
        let last = out[out.len() - 1];
        if first == last {
            out.pop();
            proof {
                assert(out@ =~= route@.drop_last());
            }
        }
    }
    out
}

/// The folders that hold plugins.
#[derive(Clone, Copy, PartialEq, Eq, Structural, Debug)]
pub enum Folder {
    Routing,
    Clustering,
    Bootstrap,
}

impl Folder {
    /// The folder's path segment.
    pub open spec fn text_spec(self) -> Seq<char> {
        match self {
            Folder::Routing => "routing"@,
            Folder::Clustering => "clustering"@,
            Folder::Bootstrap => "bootstrap"@,
        }
    }

    /// Returns the folder's path segment.
    pub fn as_text(&self) -> (r: &'static str)
        ensures
            r@ == self.text_spec(),
    {
        match self {
            Folder::Routing => "routing",
            Folder::Clustering => "clustering",
            Folder::Bootstrap => "bootstrap",
        }
    }
}

/// What the caller found at the resolved plugin path.
#[derive(Clone, Copy, PartialEq, Eq, Structural, Debug)]
pub enum PathStatus {
    Missing,
    Directory,
    File,
}

/// Why a plugin configuration is rejected.
#[derive(Clone, Copy, PartialEq, Eq, Structural, Debug)]
pub enum PluginError {
    UnrecognizedPlugin,
    PluginIsDirectory,
    PluginMissing,
}

/// A configured plugin invocation.
#[derive(Debug)]
pub struct Plugin {
    pub plugin: String,
    pub plugin_path: String,
    pub interpreter: String,
    pub args: Vec<String>,
    pub split_level: u64,
}

/// An ASCII whitespace character.
pub open spec fn is_space(c: char) -> bool {
    c == ' ' || c == '\t' || c == '\n' || c == '\r' || c == '\u{b}' || c == '\u{c}'
}

/// One step of tokenization: whitespace closes the current token, any other
/// character extends it.
pub open spec fn tok_step(acc: (Seq<Seq<char>>, Seq<char>), c: char) -> (Seq<Seq<char>>, Seq<
    char,
>) {
    if is_space(c) {
        if acc.1.len() == 0 {
            acc
        } else {
            (acc.0.push(acc.1), Seq::empty())
        }
    } else {
        (acc.0, acc.1.push(c))
    }
}

/// The whitespace-separated tokens of a text.
pub open spec fn tokens_of(s: Seq<char>) -> Seq<Seq<char>> {
    let acc = s.fold_left(
        (Seq::<Seq<char>>::empty(), Seq::<char>::empty()),
        |a: (Seq<Seq<char>>, Seq<char>), c: char| tok_step(a, c),
    );
    if acc.1.len() == 0 {
        acc.0
    } else {
        acc.0.push(acc.1)
    }
}

/// Splits a text at runs of ASCII whitespace.
pub fn whitespace_tokens(s: &str) -> (toks: Vec<String>)
    ensures
        toks@.map_values(|t: String| t@) == tokens_of(s@),
{
    let ghost f = |a: (Seq<Seq<char>>, Seq<char>), c: char| tok_step(a, c);
    let ghost init = (Seq::<Seq<char>>::empty(), Seq::<char>::empty());
    let v = chars_of(s);
    let m: usize = v.len();
    let mut parts: Vec<String> = Vec::new();
    let mut cur: Vec<char> = Vec::new();
    proof {
        assert(v@.take(0) =~= Seq::<char>::empty());
    }
    for i in 0..m
        invariant
            m == v@.len(),
            v@ == s@,
            (parts@.map_values(|t: String| t@), cur@) == v@.take(i as int).fold_left(
                (Seq::<Seq<char>>::empty(), Seq::<char>::empty()),
                |a: (Seq<Seq<char>>, Seq<char>), c: char| tok_step(a, c),
            ),
    {
        let c = v[i];
        let ghost acc_old = (parts@.map_values(|t: String| t@), cur@);
        proof {
            assert(v@.take(i as int + 1).drop_last() =~= v@.take(i as int));
            assert(v@.take(i as int + 1).last() == v@[i as int]);
        }
        if c == ' ' || c == '\t' || c == '\n' || c == '\r' || c == '\u{b}' || c == '\u{c}' {
            if cur.len() > 0 {
                let ghost old_parts = parts@;
                let ghost old_cur = cur@;
                let token = string_from_chars(&cur);
                parts.push(token);
                cur.clear();
                proof {
                    assert(parts@.map_values(|t: String| t@) =~= old_parts.map_values(
                        |t: String| t@,
                    ).push(old_cur));
                    assert((parts@.map_values(|t: String| t@), cur@) == tok_step(acc_old, c));
                }
            }
        } else {
            cur.push(c);
            proof {
                assert((parts@.map_values(|t: String| t@), cur@) == tok_step(acc_old, c));
            }
        }
    }
    proof {
        assert(v@.take(m as int) =~= v@);
    }
    if cur.len() > 0 {
        let ghost old_parts = parts@;
        let ghost old_cur = cur@;
        let token = string_from_chars(&cur);
        parts.push(token);
        proof {
            assert(parts@.map_values(|t: String| t@) =~= old_parts.map_values(
                |t: String| t@,
            ).push(old_cur));
        }
    }
    parts
}

/// A token that introduces the pass-through arguments.
pub open spec fn dashdash(t: Seq<char>) -> bool {
    t.len() >= 2 && t[0] == '-' && t[1] == '-'
}

/// Tests whether a token starts with two dashes.
fn is_dashdash(t: &String) -> (r: bool)
    ensures
        r == dashdash(t@),
{
    let v = chars_of(t.as_str());
    v.len() >= 2 && v[0] == '-' && v[1] == '-'
}

/// Finds the number of leading tokens that do not start with two dashes.
fn pre_boundary(toks: &Vec<String>) -> (r: usize)
    ensures
        r <= toks@.len(),
        forall|j: int| 0 <= j < r ==> !dashdash((#[trigger] toks@[j])@),
        r < toks@.len() ==> dashdash(toks@[r as int]@),
{
    let m: usize = toks.len();
    let mut i: usize = 0;
    while i < m && !is_dashdash(&toks[i])
        invariant
            m == toks@.len(),
            i <= m,
            forall|j: int| 0 <= j < i ==> !dashdash((#[trigger] toks@[j])@),
        decreases m - i,
    {
        i = i + 1;
    }
    i
}

/// The file extension after the last dot, if any dot occurs.
pub open spec fn ext_of(s: Seq<char>) -> Option<Seq<char>>
    decreases s.len(),
{
    if s.len() == 0 {
        Option::None
    } else if s.last() == '.' {
        Option::Some(Seq::empty())
    } else {
        match ext_of(s.drop_last()) {
            Option::Some(e) => Option::Some(e.push(s.last())),
            Option::None => Option::None,
        }
    }
}

/// A text with no dot has no extension.
pub proof fn lemma_ext_of_none(s: Seq<char>)
    requires
        forall|j: int| 0 <= j < s.len() ==> (#[trigger] s[j]) != '.',
    ensures
        ext_of(s) is None,
    decreases s.len(),
{
    if s.len() > 0 {
        lemma_ext_of_none(s.drop_last());
    }
}

/// The extension is the suffix after the last dot.
pub proof fn lemma_ext_of_some(s: Seq<char>, d: int)
    requires
        0 <= d < s.len(),
        s[d] == '.',
        forall|j: int| d < j < s.len() ==> (#[trigger] s[j]) != '.',
    ensures
        ext_of(s) == Option::Some(s.subrange(d + 1, s.len() as int)),
    decreases s.len(),
{
    if d == s.len() - 1 {
        assert(s.subrange(d + 1, s.len() as int) =~= Seq::<char>::empty());
    } else {
        lemma_ext_of_some(s.drop_last(), d);
        assert(s.drop_last().subrange(d + 1, s.len() - 1) =~= s.subrange(d + 1, s.len() - 1));
        assert(s.subrange(d + 1, s.len() as int) =~= s.subrange(d + 1, s.len() - 1).push(
            s.last(),
        ));
    }
}

/// Computes the extension after the last dot.
fn extension(s: &str) -> (r: Option<String>)
    ensures
        match r {
            Option::Some(e) => ext_of(s@) == Option::Some(e@),
            Option::None => ext_of(s@) is None,
        },
{
    let v = chars_of(s);
    let m: usize = v.len();
    let mut dot: usize = m;
    for i in 0..m
        invariant
            m == v@.len(),
            v@ == s@,
            dot <= m,
            dot == m ==> forall|j: int| 0 <= j < i ==> (#[trigger] v@[j]) != '.',
            dot < m ==> dot < i && v@[dot as int] == '.' && (forall|j: int|
                dot < j < i ==> (#[trigger] v@[j]) != '.'),
    {
        if v[i] == '.' {
            dot = i;
        }
    }
    if dot == m {
        proof {
            assert forall|j: int| 0 <= j < s@.len() implies (#[trigger] s@[j]) != '.' by {
                if s@[j] == '.' {
                    assert(v@[j] == '.');
                }
            }
            lemma_ext_of_none(s@);
        }
        Option::None
    } else {
        let mut suffix: Vec<char> = Vec::new();
        let e: usize = m;
        for i in (dot + 1)..e
            invariant
                m == v@.len(),
                e == m,
                dot < m,
                suffix@ =~= v@.subrange(dot as int + 1, i as int),
        {
            suffix.push(v[i]);
            proof {
                assert(v@.subrange(dot as int + 1, i as int + 1) =~= v@.subrange(
                    dot as int + 1,
                    i as int,
                ).push(v@[i as int]));
            }
        }
        proof {
            assert forall|j: int| dot < j < s@.len() implies (#[trigger] s@[j]) != '.' by {
                if s@[j] == '.' {
                    assert(v@[j] == '.');
                }
            }
            lemma_ext_of_some(s@, dot as int);
        }
        Option::Some(string_from_chars(&suffix))
    }
}

/// The number of leading routing tokens before the first `--`-prefixed one.
pub open spec fn pre_len(toks: Seq<Seq<char>>) -> int
    decreases toks.len(),
{
    if toks.len() == 0 {
        0
    } else if dashdash(toks[0]) {
        0
    } else {
        1 + pre_len(toks.drop_first())
    }
}

/// The boundary characterization pins `pre_len`.
pub proof fn lemma_pre_len_char(toks: Seq<Seq<char>>, r: int)
    requires
        0 <= r <= toks.len(),
        forall|j: int| 0 <= j < r ==> !dashdash(#[trigger] toks[j]),
        r < toks.len() ==> dashdash(toks[r]),
    ensures
        pre_len(toks) == r,
    decreases toks.len(),
{
    if toks.len() == 0 {
    } else if dashdash(toks[0]) {
        assert(r == 0);
    } else {
        assert(r >= 1);
        let rest = toks.drop_first();
        assert forall|j: int| 0 <= j < r - 1 implies !dashdash(#[trigger] rest[j]) by {
            assert(rest[j] == toks[j + 1]);
        }
        if r - 1 < rest.len() {
            assert(rest[r - 1] == toks[r]);
        }
        lemma_pre_len_char(rest, r - 1);
    }
}

/// The interpreter resolved from the plugin name, its folder, and the
/// routing tokens: the first pre-`--` token wins; otherwise a known script
/// extension names its interpreter, a name without any dot runs its own
/// path, and anything else is empty (unrecognized).
pub open spec fn resolved_interpreter(
    plugin: Seq<char>,
    folder: Folder,
    toks: Seq<Seq<char>>,
) -> Seq<char> {
    if pre_len(toks) >= 1 {
        toks[0]
    } else {
        match ext_of(plugin) {
            Option::Some(e) => {
                if e == "py"@ {
                    "python3"@
                } else if e == "js"@ {
                    "node"@
                } else if e == "sh"@ {
                    "bash"@
                } else if e == "ts"@ {
                    "ts-node"@
                } else {
                    Seq::empty()
                }
            },
            Option::None => plugin_path_spec(folder, plugin),
        }
    }
}

/// The plugin file name after the overrides: the second pre-`--` token wins.
pub open spec fn resolved_file(plugin: Seq<char>, toks: Seq<Seq<char>>) -> Seq<char> {
    if pre_len(toks) >= 2 {
        toks[1]
    } else {
        plugin
    }
}

/// Appends a string's characters to a character buffer.
fn push_str_chars(buf: &mut Vec<char>, s: &str)
    ensures
        final(buf)@ == old(buf)@ + s@,
{
    let v = chars_of(s);
    let m: usize = v.len();
    for i in 0..m
        invariant
            m == v@.len(),
            v@ == s@,
            buf@ =~= old(buf)@ + v@.take(i as int),
    {
        buf.push(v[i]);
        proof {
            assert(v@.take(i as int + 1) =~= v@.take(i as int).push(v@[i as int]));
            assert(buf@ =~= old(buf)@ + v@.take(i as int + 1));
        }
    }
    proof {
        assert(v@.take(m as int) =~= v@);
        assert(buf@ =~= old(buf)@ + v@);
    }
}

/// The path of a plugin file inside a folder.
pub open spec fn plugin_path_spec(folder: Folder, name: Seq<char>) -> Seq<char> {
    "algorithms/src/"@ + folder.text_spec() + "/plugins/"@ + name
}

/// Builds the path of a plugin file inside a folder.
pub fn resolve_path(folder: Folder, name: &str) -> (r: String)
    ensures
        r@ == plugin_path_spec(folder, name@),
{
    let mut buf: Vec<char> = Vec::new();
    push_str_chars(&mut buf, "algorithms/src/");
    push_str_chars(&mut buf, folder.as_text());
    push_str_chars(&mut buf, "/plugins/");
    push_str_chars(&mut buf, name);
    string_from_chars(&buf)
}

impl Plugin {
    /// Configures a plugin invocation.
    ///
    /// The routing arguments are split at whitespace: tokens before the
    /// first `--`-prefixed one override, in order, the interpreter and the
    /// plugin file name; the rest become the pass-through arguments.
    /// Without an override, the interpreter follows from the plugin's file
    /// extension; a plugin name without a dot runs itself.  The caller
    /// probes the file system at [`Plugin::target_path`] and passes what it
    /// found; a missing or directory target, or an unrecognized extension,
    /// is rejected.
    pub fn new(
        plugin: &str,
        folder: Folder,
        route_split_level: u64,
        routing_args: &str,
        path_status: PathStatus,
    ) -> (r: Result<Plugin, PluginError>)
        ensures
            r is Ok <==> (path_status == PathStatus::File && resolved_interpreter(
                plugin@,
                folder,
                tokens_of(routing_args@),
            ).len() > 0),
            r == Result::<Plugin, PluginError>::Err(PluginError::UnrecognizedPlugin)
                <==> resolved_interpreter(plugin@, folder, tokens_of(routing_args@)).len() == 0,
            r == Result::<Plugin, PluginError>::Err(PluginError::PluginIsDirectory)
                ==> path_status == PathStatus::Directory,
            r == Result::<Plugin, PluginError>::Err(PluginError::PluginMissing)
                ==> path_status == PathStatus::Missing,
            r matches Result::Ok(p) ==> {
                &&& p.plugin@ == plugin@
                &&& p.split_level == route_split_level
                &&& p.interpreter@ == resolved_interpreter(
                    plugin@,
                    folder,
                    tokens_of(routing_args@),
                )
                &&& p.plugin_path@ == plugin_path_spec(
                    folder,
                    resolved_file(plugin@, tokens_of(routing_args@)),
                )
                &&& p.args@.map_values(|t: String| t@) == tokens_of(routing_args@).skip(
                    pre_len(tokens_of(routing_args@)),
                )
            },
    {
        let toks = whitespace_tokens(routing_args);
        let ghost tv = tokens_of(routing_args@);
        let boundary = pre_boundary(&toks);
        proof {
            assert forall|j: int| 0 <= j < boundary implies !dashdash(#[trigger] tv[j]) by {
                assert(tv[j] == (toks@[j])@);
            }
            if boundary < toks@.len() {
                assert(tv[boundary as int] == (toks@[boundary as int])@);
            }
            lemma_pre_len_char(tv, boundary as int);
        }
        let mut args: Vec<String> = Vec::new();
        let t_end: usize = toks.len();
        let mut t: usize = boundary;
        while t < t_end
            invariant
                t_end == toks@.len(),
                tv == toks@.map_values(|x: String| x@),
                boundary <= t <= t_end,
                args@.len() == t - boundary,
                args@.map_values(|x: String| x@) =~= tv.subrange(boundary as int, t as int),
            decreases t_end - t,
        {
            args.push(toks[t].clone());
            t = t + 1;
            proof {
                assert(args@.map_values(|x: String| x@) =~= tv.subrange(
                    boundary as int,
                    t as int,
                ));
            }
        }
        proof {
            assert(args@.map_values(|x: String| x@) =~= tv.skip(pre_len(tv)));
        }
        let mut interpreter: String = match extension(plugin) {
            Option::Some(e) => {
                proof {
                    assert(ext_of(plugin@) == Option::Some(e@));
                }
                let es = e.as_str();
                if str_eq(es, "py") {
                    proof {
                        assert(e@ == "py"@);
                    }
                    "python3".to_owned()
                } else if str_eq(es, "js") {
                    proof {
                        assert(e@ == "js"@);
                    }
                    "node".to_owned()
                } else if str_eq(es, "sh") {
                    proof {
                        assert(e@ == "sh"@);
                    }
                    "bash".to_owned()
                } else if str_eq(es, "ts") {
                    proof {
                        assert(e@ == "ts"@);
                    }
                    "ts-node".to_owned()
                } else {
                    proof {
                        assert(e@ != "py"@ && e@ != "js"@ && e@ != "sh"@ && e@ != "ts"@);
                        reveal_strlit("");
                        assert(""@ =~= Seq::<char>::empty());
                    }
                    "".to_owned()
                }
            },
            Option::None => resolve_path(folder, plugin),
        };
        proof {
            if pre_len(tv) == 0 {
                assert(interpreter@ == resolved_interpreter(plugin@, folder, tv));
            }
        }
        let mut path_name: String = plugin.to_owned();
        if boundary >= 1 {
            interpreter = toks[0].clone();
        }
        if boundary >= 2 {
            path_name = toks[1].clone();
        }
        proof {
            if ext_of(plugin@) is None {
                // The self-run interpreter is a non-empty path.
                reveal_strlit("algorithms/src/");
            }
            assert(pre_len(tv) == boundary as int);
            if boundary >= 1 {
                assert(interpreter@ == tv[0]);
                assert(interpreter@ == resolved_interpreter(plugin@, folder, tv));
            } else {
                assert(pre_len(tv) == 0);
                assert(interpreter@ == resolved_interpreter(plugin@, folder, tv));
            }
            assert(path_name@ == resolved_file(plugin@, tv));
        }
        if interpreter.as_str().is_empty() {
            return Result::Err(PluginError::UnrecognizedPlugin);
        }
        match path_status {
            PathStatus::Directory => Result::Err(PluginError::PluginIsDirectory),
            PathStatus::Missing => Result::Err(PluginError::PluginMissing),
            PathStatus::File => Result::Ok(
                Plugin {
                    plugin: plugin.to_owned(),
                    plugin_path: resolve_path(folder, path_name.as_str()),
                    interpreter,
                    args,
                    split_level: route_split_level,
                },
            ),
        }
    }

    /// The path the caller should probe before calling [`Plugin::new`]: the
    /// plugin file inside the folder, with the file name overridden by the
    /// second pre-`--` routing argument when present.
    pub fn target_path(plugin: &str, folder: Folder, routing_args: &str) -> (r: String)
        ensures
            r@ == plugin_path_spec(
                folder,
                resolved_file(plugin@, tokens_of(routing_args@)),
            ),
    {
        let toks = whitespace_tokens(routing_args);
        let ghost tv = tokens_of(routing_args@);
        let boundary = pre_boundary(&toks);
        proof {
            assert forall|j: int| 0 <= j < boundary implies !dashdash(#[trigger] tv[j]) by {
                assert(tv[j] == (toks@[j])@);
            }
            if boundary < toks@.len() {
                assert(tv[boundary as int] == (toks@[boundary as int])@);
            }
            lemma_pre_len_char(tv, boundary as int);
        }
        if boundary >= 2 {
            proof {
                assert(tv[1] == (toks@[1])@);
            }
            resolve_path(folder, toks[1].as_str())
        } else {
            resolve_path(folder, plugin)
        }
    }
}

} // verus!

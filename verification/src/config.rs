//! A node's settings and the reading of its command line.
use vstd::prelude::*;

use crate::peers::{normalized_peers, push_peer_values, sort_dedup};
use crate::scan::{parse_unsigned, parse_unsigned_spec, split_on};
use crate::sorting::{strictly_sorted, views};
use crate::text::{concat, owned, str_equal, str_starts_with};

verus! {

/// The difficulty a node mines and checks at unless told otherwise.
pub const DEFAULT_DIFFICULTY: u32 = 4;

/// A node's settings: its proof-of-work difficulty and the directory under
/// which each node keeps its data.
#[derive(Clone, Debug)]
pub struct NodeConfig {
    pub difficulty: u32,
    pub data_dir_base: String,
}

impl Default for NodeConfig {
    fn default() -> (res: Self)
        ensures
            res.difficulty == DEFAULT_DIFFICULTY,
            res.data_dir_base@ == "ledger_data"@,
    {
        NodeConfig { difficulty: DEFAULT_DIFFICULTY, data_dir_base: owned("ledger_data") }
    }
}

/// The name of a node's data directory: the port, the text after the last `:`
/// of its address (all of it when there is none).
pub open spec fn spec_data_dir_name(addr: Seq<char>) -> Seq<char>
    decreases addr.len(),
{
    if addr.len() == 0 {
        addr
    } else if addr.last() == ':' {
        Seq::empty()
    } else {
        spec_data_dir_name(addr.drop_last()).push(addr.last())
    }
}

/// The name of a node's data directory.
pub fn data_dir_name(addr: &str) -> (res: String)
    ensures
        res@ == spec_data_dir_name(addr@),
{
    let v = crate::text::chars_of(addr);
    let mut start = v.len();
    assert(v@.take(v@.len() as int) =~= v@);
    assert(v@.subrange(v@.len() as int, v@.len() as int) =~= Seq::<char>::empty());
    assert(spec_data_dir_name(addr@) =~= spec_data_dir_name(v@) + Seq::<char>::empty());
    while start > 0 && v[start - 1] != ':'
        invariant
            start <= v@.len(),
            v@ == addr@,
            spec_data_dir_name(addr@) == spec_data_dir_name(v@.take(start as int)) + v@.subrange(
                start as int,
                v@.len() as int,
            ),
        decreases start,
    {
        assert(v@.take(start as int).drop_last() =~= v@.take(start - 1));
        assert(v@.subrange(start - 1, v@.len() as int) =~= seq![v@[start - 1]] + v@.subrange(
            start as int,
            v@.len() as int,
        ));
        start = start - 1;
    }
    assert(v@.take(v@.len() as int) =~= v@);
    crate::scan::string_of(&v, start, v.len())
}

/// A filesystem path of std, carried through as it stands.
#[verifier::external_type_specification]
#[verifier::external_body]
pub struct ExPathBuf(std::path::PathBuf);

/// The path that `Path::join` gives for `base` and `name`. Within one build
/// target the separator is fixed, so the joined path depends on the two
/// arguments alone.
pub uninterp spec fn spec_path_join(base: std::path::PathBuf, name: Seq<char>) -> std::path::PathBuf;

/// `Path::join` of std: `name` adjoined to `base`.
///
/// Trusted: the result is `spec_path_join` of the arguments. How the two are
/// joined (the separator, an absolute `name` replacing `base`) is left to that
/// name.
#[verifier::external_body]
fn path_join(base: std::path::PathBuf, name: String) -> (res: std::path::PathBuf)
    ensures
        res == spec_path_join(base, name@),
{
    base.join(name)
}

/// The directory a node keeps its data in: `base` joined with the node's
/// data directory name, which `data_dir_name` computes from its address (the
/// port after the last colon, or the whole address without one).
pub fn node_data_dir(addr: &str, base: std::path::PathBuf) -> (res: std::path::PathBuf)
    ensures
        res == spec_path_join(base, spec_data_dir_name(addr@)),
{
    let name = data_dir_name(addr);
    path_join(base, name)
}

/// What the command line asks for: the port, the address to bind, the peers
/// and the node's settings.
#[derive(Debug)]
pub struct CliOptions {
    pub port: String,
    pub bind_ip: String,
    pub peers: Vec<String>,
    pub config: NodeConfig,
}

/// Why the command line ends the program at once: the exit code, a message
/// for standard error (empty when there is none), and whether to print the
/// usage text.
#[derive(Debug)]
pub struct CliExit {
    pub code: i32,
    pub message: String,
    pub usage: bool,
}

/// The options read so far: bind address, peers, difficulty, data directory.
pub type CliState = (Seq<char>, Seq<Seq<char>>, u32, Seq<char>);

/// An early end: exit code, message, whether the usage text is shown.
pub type CliEnd = (int, Seq<char>, bool);

/// The end for an option that lacks its value.
pub open spec fn missing_value(name: Seq<char>) -> CliEnd {
    (2, name + " needs a value"@, false)
}

/// Reads the options from position `i` on.
pub open spec fn cli_from(args: Seq<Seq<char>>, port: Seq<char>, i: int, st: CliState) -> Result<CliState, CliEnd>
    decreases args.len() - i,
{
    if i < 0 || i >= args.len() {
        Ok(st)
    } else {
        let a = args[i];
        if a == "--peers"@ {
            if i + 1 >= args.len() {
                Err(missing_value("--peers"@))
            } else {
                cli_from(args, port, i + 2, (st.0, st.1 + normalized_peers(split_on(args[i + 1], ","@), port), st.2, st.3))
            }
        } else if a == "--bind-ip"@ {
            if i + 1 >= args.len() {
                Err(missing_value("--bind-ip"@))
            } else {
                cli_from(args, port, i + 2, (args[i + 1], st.1, st.2, st.3))
            }
        } else if a == "--data-dir"@ {
            if i + 1 >= args.len() {
                Err(missing_value("--data-dir"@))
            } else {
                cli_from(args, port, i + 2, (st.0, st.1, st.2, args[i + 1]))
            }
        } else if a == "--difficulty"@ {
            if i + 1 >= args.len() {
                Err(missing_value("--difficulty"@))
            } else {
                match parse_unsigned_spec(args[i + 1], u32::MAX as nat) {
                    Some(n) => cli_from(args, port, i + 2, (st.0, st.1, n as u32, st.3)),
                    None => Err((2, "--difficulty must be a non-negative integer"@, false)),
                }
            }
        } else if "--"@.is_prefix_of(a) {
            Err((2, "unknown option: "@ + a, true))
        } else {
            Err((2, "unexpected positional argument: "@ + a, true))
        }
    }
}

/// Whether the arguments ask for help.
pub open spec fn asks_help(args: Seq<Seq<char>>) -> bool {
    exists|i: int| 0 <= i < args.len() && (args[i] == "-h"@ || args[i] == "--help"@)
}

/// The options the arguments give, or how the program ends at once.
pub open spec fn spec_parse_cli(args: Seq<Seq<char>>) -> Result<CliState, CliEnd> {
    if args.len() == 0 {
        Err((1, Seq::empty(), true))
    } else if asks_help(args) {
        Err((0, Seq::empty(), true))
    } else {
        cli_from(args, args[0], 1, ("127.0.0.1"@, Seq::empty(), DEFAULT_DIFFICULTY, "ledger_data"@))
    }
}

fn end_with(code: i32, message: String, usage: bool) -> (res: CliExit)
    ensures
        res.code == code,
        res.message == message,
        res.usage == usage,
{
    CliExit { code, message, usage }
}

/// Reads the command line (without the program name): the port first, then
/// `--peers`, `--bind-ip`, `--data-dir` and `--difficulty`, each with a value.
/// The peers come out sorted, each once.
pub fn parse_cli(args: &Vec<String>) -> (res: Result<CliOptions, CliExit>)
    ensures
        match spec_parse_cli(views(args@)) {
            Ok(st) => res matches Ok(o) && {
                &&& o.port@ == args@[0]@
                &&& o.bind_ip@ == st.0
                &&& strictly_sorted(views(o.peers@))
                &&& views(o.peers@).to_set() == st.1.to_set()
                &&& o.config.difficulty == st.2
                &&& o.config.data_dir_base@ == st.3
            },
            Err(end) => res matches Err(e) && e.code as int == end.0 && e.message@ == end.1 && e.usage == end.2,
        },
{
    proof {
        reveal_strlit("--peers");
        reveal_strlit("--bind-ip");
        reveal_strlit("--data-dir");
        reveal_strlit("--difficulty");
        reveal_strlit("--");
        reveal_strlit("-h");
        reveal_strlit("--help");
    }
    if args.len() == 0 {
        return Err(end_with(1, String::new(), true));
    }
    let mut h: usize = 0;
    while h < args.len()
        invariant
            h <= args@.len(),
            forall|k: int| 0 <= k < h ==> !(#[trigger] views(args@)[k] == "-h"@ || views(args@)[k] == "--help"@),
        decreases args@.len() - h,
    {
        if str_equal(&args[h], "-h") || str_equal(&args[h], "--help") {
            assert(views(args@)[h as int] == args@[h as int]@);
            return Err(end_with(0, String::new(), true));
        }
        h = h + 1;
    }
    assert(!asks_help(views(args@)));
    let port = args[0].clone();
    let mut bind_ip = owned("127.0.0.1");
    let mut peers: Vec<String> = Vec::new();
    let mut config = NodeConfig::default();
    let ghost goal = spec_parse_cli(views(args@));
    assert(views(peers@) =~= Seq::<Seq<char>>::empty());
    assert(port@ == views(args@)[0]);
    let mut i: usize = 1;
    while i < args.len()
        invariant
            1 <= i,
            i <= args@.len() + 1,
            port@ == views(args@)[0],
            goal == spec_parse_cli(views(args@)),
            goal == cli_from(views(args@), port@, i as int, (bind_ip@, views(peers@), config.difficulty, config.data_dir_base@)),
        decreases args@.len() + 1 - i,
    {
        let a = &args[i];
        let has_value = i + 1 < args.len();
        if str_equal(a, "--peers") {
            if !has_value {
                return Err(end_with(2, concat("--peers", " needs a value"), false));
            }
            push_peer_values(&mut peers, &args[i + 1], &port);
        } else if str_equal(a, "--bind-ip") {
            if !has_value {
                return Err(end_with(2, concat("--bind-ip", " needs a value"), false));
            }
            bind_ip = args[i + 1].clone();
        } else if str_equal(a, "--data-dir") {
            if !has_value {
                return Err(end_with(2, concat("--data-dir", " needs a value"), false));
            }
            config.data_dir_base = args[i + 1].clone();
        } else if str_equal(a, "--difficulty") {
            if !has_value {
                return Err(end_with(2, concat("--difficulty", " needs a value"), false));
            }
            match parse_unsigned(&args[i + 1], u32::MAX as u64) {
                Some(n) => {
                    config.difficulty = n as u32;
                },
                None => {
                    return Err(end_with(2, owned("--difficulty must be a non-negative integer"), false));
                },
            }
        } else if str_starts_with(a, "--") {
            return Err(end_with(2, concat("unknown option: ", a), true));
        } else {
            return Err(end_with(2, concat("unexpected positional argument: ", a), true));
        }
        i = i + 2;
    }
    let ghost st = (bind_ip@, views(peers@), config.difficulty, config.data_dir_base@);
    assert(goal == Ok::<CliState, CliEnd>(st));
    sort_dedup(&mut peers);
    Ok(CliOptions { port, bind_ip, peers, config })
}

} // verus!

//! What the command line decides: how it was called, what it prints, and
//! which code it ends with.
use vstd::prelude::*;
use crate::digest;
use crate::gather;
use crate::json;
use crate::json::{member, members_view, Json, JsonV, Number};
use crate::ordmap::{collect, lemma_map_vals_put, map_vals, put, StrMap};
use crate::text;
use crate::text::{decimal, lowered, stands_at, texts};
use crate::types::{AddressV, opt_text, ResourceAction, ResourceChange, State, StateResource};

verus! {

// ── How it was called ──────────────────────────────────────────────

/// Which tool the command line stands in for.
#[derive(Clone, Copy, Debug, PartialEq, Eq, Structural)]
pub enum InvokeMode {
    /// `terraform`, or anything that begins so.
    TerraformCompat,
    /// `tofu`, or anything that begins so.
    OpenTofuCompat,
    /// Anything else.
    MagmaNative,
}

/// The mode for a name in lower case; a forced mode goes before it.
pub open spec fn named_mode(name: Seq<char>, forced: Option<Seq<char>>) -> InvokeMode {
    match forced {
        Some(f) => if f == "terraform"@ {
            InvokeMode::TerraformCompat
        } else if f == "tofu"@ {
            InvokeMode::OpenTofuCompat
        } else {
            InvokeMode::MagmaNative
        },
        None => if stands_at(name, "terraform"@, 0) {
            InvokeMode::TerraformCompat
        } else if stands_at(name, "tofu"@, 0) {
            InvokeMode::OpenTofuCompat
        } else {
            InvokeMode::MagmaNative
        },
    }
}

/// The mode for the name under which the program was called, in whatever
/// case; a forced mode goes before it.
pub open spec fn mode_of(basename: Seq<char>, forced: Option<Seq<char>>) -> InvokeMode {
    named_mode(lowered(basename), forced)
}

pub open spec fn opt_chars(o: Option<&str>) -> Option<Seq<char>> {
    match o {
        Some(s) => Some(s@),
        None => None,
    }
}

/// The mode for a name in lower case and the mode that the environment
/// forces, if any.
pub fn mode_for(name: &str, forced: Option<&str>) -> (r: InvokeMode)
    ensures
        r == named_mode(name@, opt_chars(forced)),
{
    match forced {
        Some(f) => {
            if text::same(f, "terraform") {
                InvokeMode::TerraformCompat
            } else if text::same(f, "tofu") {
                InvokeMode::OpenTofuCompat
            } else {
                InvokeMode::MagmaNative
            }
        },
        None => {
            if text::starts_with(name, "terraform") {
                InvokeMode::TerraformCompat
            } else if text::starts_with(name, "tofu") {
                InvokeMode::OpenTofuCompat
            } else {
                InvokeMode::MagmaNative
            }
        },
    }
}

/// The mode for the name under which the program was called and the mode
/// that the environment forces, if any.
pub fn detect_mode(basename: &str, forced: Option<&str>) -> (r: InvokeMode)
    ensures
        r == mode_of(basename@, opt_chars(forced)),
{
    mode_for(text::lower(basename).as_str(), forced)
}

/// Whether the command line stands in for another tool.
pub fn is_compat_mode(m: InvokeMode) -> (r: bool)
    ensures
        r == (m != InvokeMode::MagmaNative),
{
    match m {
        InvokeMode::TerraformCompat => true,
        InvokeMode::OpenTofuCompat => true,
        InvokeMode::MagmaNative => false,
    }
}

/// How results are printed.
#[derive(Clone, Copy, Debug, PartialEq, Eq, Structural)]
pub enum OutputMode {
    TerraformPlain,
    MagmaNative,
}

/// How results are printed: plainly, unless the environment asks for the
/// native form.
pub fn detect_output_mode(invoke: InvokeMode, asked: Option<&str>) -> (r: OutputMode)
    ensures
        r == if opt_chars(asked) == Some("native"@) {
            OutputMode::MagmaNative
        } else {
            OutputMode::TerraformPlain
        },
{
    match asked {
        Some(a) => {
            if text::same(a, "native") {
                OutputMode::MagmaNative
            } else {
                OutputMode::TerraformPlain
            }
        },
        None => OutputMode::TerraformPlain,
    }
}

// ── The environment ────────────────────────────────────────────────

/// The settings that the environment gives.
#[derive(Debug)]
pub struct TfEnv {
    /// Variables, by their names in lower case.
    pub vars: StrMap<String>,
    pub data_dir: Option<String>,
    pub log_level: Option<String>,
    pub log_path: Option<String>,
    pub input_enabled: bool,
    pub in_automation: bool,
    pub workspace: Option<String>,
    pub plugin_cache_dir: Option<String>,
    /// Tokens, by host.
    pub registry_tokens: StrMap<String>,
    /// Further arguments, by subcommand in lower case.
    pub cli_args: StrMap<String>,
}

pub type Texts = Seq<(Seq<char>, Seq<char>)>;

/// What a [`TfEnv`] holds.
#[verifier::ext_equal]
pub struct EnvV {
    pub vars: Texts,
    pub data_dir: Option<Seq<char>>,
    pub log_level: Option<Seq<char>>,
    pub log_path: Option<Seq<char>>,
    pub input_enabled: bool,
    pub in_automation: bool,
    pub workspace: Option<Seq<char>>,
    pub plugin_cache_dir: Option<Seq<char>>,
    pub registry_tokens: Texts,
    pub cli_args: Texts,
}

pub open spec fn text_map(m: Seq<(Seq<char>, String)>) -> Texts {
    map_vals(m, |s: String| s@)
}

impl View for TfEnv {
    type V = EnvV;

    open spec fn view(&self) -> EnvV {
        EnvV {
            vars: text_map(self.vars@),
            data_dir: opt_text(self.data_dir),
            log_level: opt_text(self.log_level),
            log_path: opt_text(self.log_path),
            input_enabled: self.input_enabled,
            in_automation: self.in_automation,
            workspace: opt_text(self.workspace),
            plugin_cache_dir: opt_text(self.plugin_cache_dir),
            registry_tokens: text_map(self.registry_tokens@),
            cli_args: text_map(self.cli_args@),
        }
    }
}

/// Nothing set: input is on.
pub open spec fn plain_env() -> EnvV {
    EnvV {
        vars: Seq::empty(),
        data_dir: None,
        log_level: None,
        log_path: None,
        input_enabled: true,
        in_automation: false,
        workspace: None,
        plugin_cache_dir: None,
        registry_tokens: Seq::empty(),
        cli_args: Seq::empty(),
    }
}

/// What of a variable is read without regard to case: the value of `TF_INPUT`,
/// and what follows the prefix in the names of variables and arguments.
pub open spec fn caseless_part(k: Seq<char>, v: Seq<char>) -> Seq<char> {
    if k == "TF_INPUT"@ {
        v
    } else if stands_at(k, "TF_VAR_"@, 0) {
        k.skip("TF_VAR_"@.len() as int)
    } else if stands_at(k, "TF_CLI_ARGS_"@, 0) {
        k.skip("TF_CLI_ARGS_"@.len() as int)
    } else {
        Seq::empty()
    }
}

/// The settings with one more variable of the environment, of which `lower`
/// is the part that is read without regard to case, in lower case.
pub open spec fn with_folded(e: EnvV, k: Seq<char>, v: Seq<char>, lower: Seq<char>) -> EnvV {
    if k == "TF_DATA_DIR"@ {
        EnvV { data_dir: Some(v), ..e }
    } else if k == "TF_LOG"@ {
        EnvV { log_level: Some(v), ..e }
    } else if k == "TF_LOG_PATH"@ {
        EnvV { log_path: Some(v), ..e }
    } else if k == "TF_INPUT"@ {
        EnvV { input_enabled: lower != "false"@ && lower != "0"@ && lower != "no"@, ..e }
    } else if k == "TF_IN_AUTOMATION"@ {
        EnvV { in_automation: v.len() > 0, ..e }
    } else if k == "TF_WORKSPACE"@ {
        EnvV { workspace: Some(v), ..e }
    } else if k == "TF_PLUGIN_CACHE_DIR"@ {
        EnvV { plugin_cache_dir: Some(v), ..e }
    } else if stands_at(k, "TF_VAR_"@, 0) {
        EnvV { vars: put(e.vars, lower, v), ..e }
    } else if stands_at(k, "TF_TOKEN_"@, 0) {
        EnvV { registry_tokens: put(e.registry_tokens, k.skip("TF_TOKEN_"@.len() as int), v), ..e }
    } else if stands_at(k, "TF_CLI_ARGS_"@, 0) {
        EnvV { cli_args: put(e.cli_args, lower, v), ..e }
    } else {
        e
    }
}

/// The settings with one more variable of the environment.
pub open spec fn with_variable(e: EnvV, k: Seq<char>, v: Seq<char>) -> EnvV {
    with_folded(e, k, v, lowered(caseless_part(k, v)))
}

/// The settings of an environment, its variables taken one after the other.
pub open spec fn env_of(vars: Texts) -> EnvV
    decreases vars.len(),
{
    if vars.len() == 0 {
        plain_env()
    } else {
        with_variable(env_of(vars.drop_last()), vars.last().0, vars.last().1)
    }
}

pub open spec fn pairs_view(v: Seq<(String, String)>) -> Texts {
    Seq::new(v.len(), |i: int| (v[i].0@, v[i].1@))
}

/// Write a text under a key.
fn put_text(m: &mut StrMap<String>, k: String, v: &str)
    ensures
        text_map(final(m)@) == put(text_map(old(m)@), k@, v@),
{
    let s: String = v.to_owned();
    proof {
        lemma_map_vals_put(m@, |x: String| x@, k@, s);
    }
    m.insert(k, s);
}

impl TfEnv {
    /// Nothing set.
    pub fn new() -> (r: Self)
        ensures
            r@ == plain_env(),
    {
        let r = TfEnv {
            vars: StrMap::new(),
            data_dir: None,
            log_level: None,
            log_path: None,
            input_enabled: true,
            in_automation: false,
            workspace: None,
            plugin_cache_dir: None,
            registry_tokens: StrMap::new(),
            cli_args: StrMap::new(),
        };
        proof {
            assert(r@.vars =~= Seq::empty());
            assert(r@.registry_tokens =~= Seq::empty());
            assert(r@.cli_args =~= Seq::empty());
        }
        r
    }

    /// Take one variable of the environment in, of which `lower` is the part
    /// that is read without regard to case, in lower case.
    pub fn take_folded(&mut self, k: &str, v: &str, lower: &str)
        ensures
            final(self)@ == with_folded(old(self)@, k@, v@, lower@),
    {
        if text::same(k, "TF_DATA_DIR") {
            self.data_dir = Some(v.to_owned());
        } else if text::same(k, "TF_LOG") {
            self.log_level = Some(v.to_owned());
        } else if text::same(k, "TF_LOG_PATH") {
            self.log_path = Some(v.to_owned());
        } else if text::same(k, "TF_INPUT") {
            self.input_enabled = !(text::same(lower, "false") || text::same(lower, "0")
                || text::same(lower, "no"));
        } else if text::same(k, "TF_IN_AUTOMATION") {
            self.in_automation = !text::is_empty(v);
        } else if text::same(k, "TF_WORKSPACE") {
            self.workspace = Some(v.to_owned());
        } else if text::same(k, "TF_PLUGIN_CACHE_DIR") {
            self.plugin_cache_dir = Some(v.to_owned());
        } else if text::starts_with(k, "TF_VAR_") {
            put_text(&mut self.vars, lower.to_owned(), v);
        } else {
            match text::strip_prefix(k, "TF_TOKEN_") {
                Some(host) => {
                    put_text(&mut self.registry_tokens, host, v);
                },
                None => {
                    if text::starts_with(k, "TF_CLI_ARGS_") {
                        put_text(&mut self.cli_args, lower.to_owned(), v);
                    }
                },
            }
        }
    }

    /// Take one variable of the environment in.
    pub fn take(&mut self, k: &str, v: &str)
        ensures
            final(self)@ == with_variable(old(self)@, k@, v@),
    {
        let part: String = if text::same(k, "TF_INPUT") {
            v.to_owned()
        } else {
            match text::strip_prefix(k, "TF_VAR_") {
                Some(name) => name,
                None => match text::strip_prefix(k, "TF_CLI_ARGS_") {
                    Some(sub) => sub,
                    None => String::new(),
                },
            }
        };
        proof {
            assert(part@ =~= caseless_part(k@, v@));
        }
        self.take_folded(k, v, text::lower(part.as_str()).as_str());
    }
}

/// The settings of an environment.
pub fn capture_tf_env(vars: &Vec<(String, String)>) -> (r: TfEnv)
    ensures
        r@ == env_of(pairs_view(vars@)),
{
    let ghost all = pairs_view(vars@);
    let mut e = TfEnv::new();
    let mut i: usize = 0;
    proof {
        assert(all.take(0) =~= Seq::empty());
    }
    while i < vars.len()
        invariant
            i <= vars@.len(),
            all == pairs_view(vars@),
            e@ == env_of(all.take(i as int)),
        decreases vars.len() - i,
    {
        proof {
            assert(all.take(i + 1).drop_last() =~= all.take(i as int));
            assert(all.take(i + 1).last() == (vars@[i as int].0@, vars@[i as int].1@));
        }
        e.take(vars[i].0.as_str(), vars[i].1.as_str());
        i += 1;
    }
    proof {
        assert(all.take(all.len() as int) =~= all);
    }
    e
}

// ── Bindings ───────────────────────────────────────────────────────

/// `indexmap::IndexMap`: entries in the order in which their keys came.
#[verifier::external_type_specification]
#[verifier::external_body]
#[verifier::reject_recursive_types(K)]
#[verifier::reject_recursive_types(V)]
#[verifier::reject_recursive_types(S)]
pub struct ExIndexMap<K, V, S>(indexmap::IndexMap<K, V, S>);

/// The entries of a map, in their order.
pub uninterp spec fn bound(m: indexmap::IndexMap<String, String>) -> Seq<(Seq<char>, Seq<char>)>;

/// The entries with `k` set to `v`: in place where the key is there, else at
/// the end.
pub open spec fn bind(s: Texts, k: Seq<char>, v: Seq<char>) -> Texts
    decreases s.len(),
{
    if s.len() == 0 {
        seq![(k, v)]
    } else if s[0].0 == k {
        seq![(k, v)] + s.drop_first()
    } else {
        seq![s[0]] + bind(s.drop_first(), k, v)
    }
}

/// `indexmap::IndexMap::new`: no entries.
#[verifier::external_body]
fn new_bindings() -> (r: indexmap::IndexMap<String, String>)
    ensures
        bound(r) == Seq::<(Seq<char>, Seq<char>)>::empty(),
{
    indexmap::IndexMap::new()
}

/// `indexmap::IndexMap::insert`: the value of a key that is there is replaced
/// and the key keeps its place; a new key goes to the end.
#[verifier::external_body]
fn insert_binding(m: &mut indexmap::IndexMap<String, String>, k: String, v: String)
    ensures
        bound(*final(m)) == bind(bound(*old(m)), k@, v@),
{
    m.insert(k, v);
}

/// What is said of a binding without an equals sign.
pub open spec fn binding_error(kv: Seq<char>) -> Seq<char> {
    "--tlisp-binding must be KEY=VALUE: `"@ + kv + "`"@
}

/// The bindings that a list of `KEY=VALUE` gives, or what is said of the
/// first one that has another form.
pub open spec fn bindings(kvs: Seq<Seq<char>>) -> Result<Texts, Seq<char>>
    decreases kvs.len(),
{
    if kvs.len() == 0 {
        Ok(Seq::empty())
    } else {
        match bindings(kvs.drop_last()) {
            Err(e) => Err(e),
            Ok(s) => match text::cut(kvs.last(), '=') {
                None => Err(binding_error(kvs.last())),
                Some((k, v)) => Ok(bind(s, k, v)),
            },
        }
    }
}

proof fn lemma_bindings_error(kvs: Seq<Seq<char>>, n: int)
    requires
        0 <= n <= kvs.len(),
        bindings(kvs.take(n)) is Err,
    ensures
        bindings(kvs) == bindings(kvs.take(n)),
    decreases kvs.len(),
{
    if n == kvs.len() {
        assert(kvs.take(n) =~= kvs);
    } else {
        assert(kvs.drop_last().take(n) =~= kvs.take(n));
        lemma_bindings_error(kvs.drop_last(), n);
    }
}

/// Read a list of `KEY=VALUE`.
pub fn read_bindings(kvs: &Vec<String>) -> (r: Result<indexmap::IndexMap<String, String>, String>)
    ensures
        match r {
            Ok(m) => bindings(texts(kvs@)) == Ok::<Texts, Seq<char>>(bound(m)),
            Err(e) => bindings(texts(kvs@)) == Err::<Texts, Seq<char>>(e@),
        },
{
    let ghost all = texts(kvs@);
    let mut out = new_bindings();
    let mut i: usize = 0;
    proof {
        assert(all.take(0) =~= Seq::empty());
    }
    while i < kvs.len()
        invariant
            i <= kvs@.len(),
            all == texts(kvs@),
            bindings(all.take(i as int)) == Ok::<Texts, Seq<char>>(bound(out)),
        decreases kvs.len() - i,
    {
        proof {
            assert(all.take(i + 1).drop_last() =~= all.take(i as int));
            assert(all.take(i + 1).last() == kvs@[i as int]@);
        }
        match text::split_once(kvs[i].as_str(), '=') {
            None => {
                proof {
                    lemma_bindings_error(all, i + 1);
                }
                return Err(
                    text::join3("--tlisp-binding must be KEY=VALUE: `", kvs[i].as_str(), "`"),
                );
            },
            Some(kv) => {
                insert_binding(&mut out, kv.0, kv.1);
            },
        }
        i += 1;
    }
    proof {
        assert(all.take(all.len() as int) =~= all);
    }
    Ok(out)
}

// ── Commands ───────────────────────────────────────────────────────

/// What the command line can be asked to do.
#[derive(Clone, Copy, Debug, PartialEq, Eq, Structural)]
pub enum Command {
    Init,
    Plan,
    Apply,
    Destroy,
    StateList,
    StateShow,
    StateMv,
    StateRm,
    StateReplaceProvider,
    Import,
    WorkspaceShow,
    WorkspaceList,
    WorkspaceNew,
    WorkspaceSelect,
    WorkspaceDelete,
    Output,
    Show,
    Refresh,
    Taint,
    ForceUnlock,
    Get,
    Fmt,
    Validate,
    Console,
    Mcp,
    Daemon,
    Watch,
    AttestVerify,
    ConfigGet,
    ConfigSet,
    ConfigEdit,
    Flow,
    Capabilities,
    Fixture,
    Migrate,
    Split,
    Merge,
    Rubygems,
}

/// The name of a command that does nothing yet.
pub open spec fn pending_name(c: Command) -> Option<Seq<char>> {
    match c {
        Command::StateMv => Some("state mv"@),
        Command::StateRm => Some("state rm"@),
        Command::StateReplaceProvider => Some("state replace-provider"@),
        Command::Import => Some("import"@),
        Command::WorkspaceNew => Some("workspace new"@),
        Command::WorkspaceSelect => Some("workspace select"@),
        Command::WorkspaceDelete => Some("workspace delete"@),
        Command::Output => Some("output"@),
        Command::Show => Some("show"@),
        Command::Refresh => Some("refresh"@),
        Command::Taint => Some("taint"@),
        Command::ForceUnlock => Some("force-unlock"@),
        Command::Get => Some("get"@),
        Command::Validate => Some("validate"@),
        Command::Console => Some("console"@),
        Command::Daemon => Some("daemon"@),
        Command::Watch => Some("watch"@),
        Command::AttestVerify => Some("attest verify"@),
        Command::ConfigGet => Some("config get"@),
        Command::ConfigSet => Some("config set"@),
        Command::ConfigEdit => Some("config edit"@),
        _ => None,
    }
}

impl Command {
    /// The name of a command that does nothing yet; nothing for the others.
    pub fn pending(self) -> (r: Option<&'static str>)
        ensures
            opt_chars(r) == pending_name(self),
    {
        match self {
            Command::StateMv => Some("state mv"),
            Command::StateRm => Some("state rm"),
            Command::StateReplaceProvider => Some("state replace-provider"),
            Command::Import => Some("import"),
            Command::WorkspaceNew => Some("workspace new"),
            Command::WorkspaceSelect => Some("workspace select"),
            Command::WorkspaceDelete => Some("workspace delete"),
            Command::Output => Some("output"),
            Command::Show => Some("show"),
            Command::Refresh => Some("refresh"),
            Command::Taint => Some("taint"),
            Command::ForceUnlock => Some("force-unlock"),
            Command::Get => Some("get"),
            Command::Validate => Some("validate"),
            Command::Console => Some("console"),
            Command::Daemon => Some("daemon"),
            Command::Watch => Some("watch"),
            Command::AttestVerify => Some("attest verify"),
            Command::ConfigGet => Some("config get"),
            Command::ConfigSet => Some("config set"),
            Command::ConfigEdit => Some("config edit"),
            _ => None,
        }
    }
}

/// What a command that does nothing yet says; `see` is where to read on.
pub open spec fn pending_words(name: Seq<char>, see: Option<Seq<char>>) -> Seq<char> {
    "magma "@ + name + ": not yet implemented (M0 in flight"@ + (match see {
        Some(s) => " — see "@ + s + ")"@,
        None => ")"@,
    })
}

/// What a command that does nothing yet says; see [`pending_words`].
pub fn pending_text(name: &str, see: Option<&str>) -> (r: String)
    ensures
        r@ == pending_words(name@, opt_chars(see)),
{
    let mut out = text::join3("magma ", name, ": not yet implemented (M0 in flight");
    match see {
        Some(s) => out.append(text::join3(" — see ", s, ")").as_str()),
        None => out.append(")"),
    }
    out
}

/// What the program says when it is called without a command; `see` is where
/// else to read on.
pub open spec fn banner(mode: InvokeMode, version: Seq<char>, see: Option<Seq<char>>) -> Seq<
    Seq<char>,
> {
    match mode {
        InvokeMode::TerraformCompat => seq![
            "Terraform v1.5-compat (magma "@ + version + ")"@,
            "Run `terraform --help` for usage."@,
        ],
        InvokeMode::OpenTofuCompat => seq![
            "OpenTofu v1.7-compat (magma "@ + version + ")"@,
            "Run `tofu --help` for usage."@,
        ],
        InvokeMode::MagmaNative => seq![
            "magma "@ + version + " — Rust-native Pangea-Ruby-first IaC executor"@,
            "See `magma --help`"@ + (match see {
                Some(s) => " and "@ + s + "."@,
                None => "."@,
            }),
        ],
    }
}

/// The lines of the banner.
pub fn banner_lines(mode: InvokeMode, version: &str, see: Option<&str>) -> (r: Vec<String>)
    ensures
        texts(r@) == banner(mode, version@, opt_chars(see)),
{
    let r = match mode {
        InvokeMode::TerraformCompat => vec![
            text::join3("Terraform v1.5-compat (magma ", version, ")"),
            "Run `terraform --help` for usage.".to_owned(),
        ],
        InvokeMode::OpenTofuCompat => vec![
            text::join3("OpenTofu v1.7-compat (magma ", version, ")"),
            "Run `tofu --help` for usage.".to_owned(),
        ],
        InvokeMode::MagmaNative => vec![
            text::join3("magma ", version, " — Rust-native Pangea-Ruby-first IaC executor"),
            match see {
                Some(s) => text::join2(
                    "See `magma --help`",
                    text::join3(" and ", s, ".").as_str(),
                ),
                None => text::join2("See `magma --help`", "."),
            },
        ],
    };
    proof {
        assert(texts(r@) =~= banner(mode, version@, opt_chars(see)));
    }
    r
}

/// Whether a file with this extension is written in Lisp.
pub fn is_lisp(extension: Option<&str>) -> (r: bool)
    ensures
        r == (match opt_chars(extension) {
            Some(e) => e == "lisp"@ || e == "tatara"@ || e == "scm"@,
            None => false,
        }),
{
    match extension {
        Some(e) => text::same(e, "lisp") || text::same(e, "tatara") || text::same(e, "scm"),
        None => false,
    }
}

// ── Plans ──────────────────────────────────────────────────────────

/// A change that alters something: not one that does nothing, nor one that
/// only reads.
pub open spec fn alters(a: ResourceAction) -> bool {
    a != ResourceAction::NoOp && a != ResourceAction::Read
}

/// Whether a plan alters anything.
pub fn has_changes(changes: &Vec<ResourceChange>) -> (r: bool)
    ensures
        r == exists|i: int| 0 <= i < changes@.len() && alters((#[trigger] changes@[i]).action),
{
    let mut i: usize = 0;
    while i < changes.len()
        invariant
            i <= changes@.len(),
            forall|j: int| 0 <= j < i ==> !alters((#[trigger] changes@[j]).action),
        decreases changes.len() - i,
    {
        if changes[i].action != ResourceAction::NoOp && changes[i].action != ResourceAction::Read {
            return true;
        }
        i += 1;
    }
    false
}

/// The code that planning ends with: 2 for pending changes where the caller
/// asked for detail, else 0.
pub fn plan_exit_code(changes: &Vec<ResourceChange>, detailed: bool) -> (r: u8)
    ensures
        r == if detailed && exists|i: int|
            0 <= i < changes@.len() && alters((#[trigger] changes@[i]).action) {
            2u8
        } else {
            0u8
        },
{
    if detailed && has_changes(changes) {
        2
    } else {
        0
    }
}

/// The code that carrying out ends with: 1 where anything failed, else 0.
pub fn apply_exit_code(failed: usize) -> (r: u8)
    ensures
        r == if failed == 0 { 0u8 } else { 1u8 },
{
    if failed == 0 {
        0
    } else {
        1
    }
}

/// The code that a check of workspaces ends with: 0 where it was made and
/// nothing failed, 1 where something failed or it could not be made.
pub fn check_exit_code(checked: &Result<usize, String>) -> (r: u8)
    ensures
        r == if checked matches Ok(n) && n == 0 { 0u8 } else { 1u8 },
{
    match checked {
        Ok(failed) => apply_exit_code(*failed),
        Err(_) => 1,
    }
}

/// A number as JSON.
pub open spec fn number(n: nat) -> JsonV {
    JsonV::Number(Number::PosInt(n as u64))
}

fn count(n: usize) -> (r: Json)
    ensures
        r@ == number(n as nat),
{
    Json::Number(Number::PosInt(n as u64))
}

/// What planning prints.
pub open spec fn plan_summary_json(
    id: Seq<u8>,
    created_at: JsonV,
    changes: Seq<JsonV>,
    observation: JsonV,
    verdict: JsonV,
) -> JsonV {
    JsonV::Object(
        collect(
            seq![
                ("plan_id"@, JsonV::String(digest::hex_text(id))),
                ("created_at"@, created_at),
                ("resource_changes"@, number(changes.len())),
                ("changes"@, JsonV::Array(changes)),
                ("observation"@, observation),
                ("verdict"@, verdict),
            ],
        ),
    )
}

/// What planning prints: the plan's id in hexadecimal, its changes and how
/// many there are, and how much of it was seen.
pub fn plan_summary(
    id: &[u8],
    created_at: Json,
    changes: Vec<Json>,
    observation: Json,
    verdict: Json,
) -> (r: Json)
    ensures
        r@ == plan_summary_json(id@, created_at@, json::list_view(changes@), observation@, verdict@),
{
    let n = changes.len();
    proof {
        json::lemma_array_view(changes);
    }
    let members = vec![
        ("plan_id".to_owned(), Json::String(digest::to_hex(id))),
        ("created_at".to_owned(), created_at),
        ("resource_changes".to_owned(), count(n)),
        ("changes".to_owned(), Json::Array(changes)),
        ("observation".to_owned(), observation),
        ("verdict".to_owned(), verdict),
    ];
    proof {
        assert(members_view(members@) =~= seq![
            ("plan_id"@, JsonV::String(digest::hex_text(id@))),
            ("created_at"@, created_at@),
            ("resource_changes"@, number(n as nat)),
            ("changes"@, JsonV::Array(json::list_view(changes@))),
            ("observation"@, observation@),
            ("verdict"@, verdict@),
        ]);
    }
    Json::object(members)
}

/// What carrying out prints.
pub open spec fn apply_summary_json(
    id: Seq<u8>,
    applied: nat,
    failed: nat,
    started_at: JsonV,
    finished_at: JsonV,
) -> JsonV {
    JsonV::Object(
        collect(
            seq![
                ("plan_id"@, JsonV::String(digest::hex_text(id))),
                ("applied"@, number(applied)),
                ("failed"@, number(failed)),
                ("started_at"@, started_at),
                ("finished_at"@, finished_at),
            ],
        ),
    )
}

/// What carrying out prints: the plan's id in hexadecimal, how many changes
/// were made and how many failed, and when.
pub fn apply_summary(
    id: &[u8],
    applied: usize,
    failed: usize,
    started_at: Json,
    finished_at: Json,
) -> (r: Json)
    ensures
        r@ == apply_summary_json(
            id@,
            applied as nat,
            failed as nat,
            started_at@,
            finished_at@,
        ),
{
    let members = vec![
        ("plan_id".to_owned(), Json::String(digest::to_hex(id))),
        ("applied".to_owned(), count(applied)),
        ("failed".to_owned(), count(failed)),
        ("started_at".to_owned(), started_at),
        ("finished_at".to_owned(), finished_at),
    ];
    proof {
        assert(members_view(members@) =~= seq![
            ("plan_id"@, JsonV::String(digest::hex_text(id@))),
            ("applied"@, number(applied as nat)),
            ("failed"@, number(failed as nat)),
            ("started_at"@, started_at@),
            ("finished_at"@, finished_at@),
        ]);
    }
    Json::object(members)
}

/// What a refresh found.
#[derive(Clone, Copy, Debug, PartialEq, Eq, Structural)]
pub struct RefreshCounts {
    pub refreshed: usize,
    pub dropped_instances: usize,
    pub dropped_resources: usize,
    pub suppressed_mass_drop: usize,
    pub kept_on_error: usize,
    pub probed: usize,
}

/// The warning that what was planned from was not seen.
pub open spec fn blind_text(c: RefreshCounts, coverage: Seq<char>) -> Seq<char> {
    "magma: plan-time refresh is "@ + coverage + " — "@ + decimal(c.kept_on_error as nat) + " of "@
        + decimal(c.probed as nat)
        + " state instance(s) could not be read from the provider. This plan's `before` side is REMEMBERED state, not observed reality; an empty change set here is NOT evidence that anything matches."@
}

/// What changed in the refresh.
pub open spec fn drift_text(c: RefreshCounts) -> Seq<char> {
    "magma: plan-time refresh — "@ + decimal(c.refreshed as nat)
        + " instance(s) updated from the real world, "@ + decimal(c.dropped_instances as nat)
        + " confirmed gone ("@ + decimal(c.dropped_resources as nat)
        + " resource(s) dropped from state), "@ + decimal(c.suppressed_mass_drop as nat)
        + " suppressed as a mass-drop anomaly (systemic read failure, not genuine drift)"@
}

/// Whether a refresh changed anything.
pub open spec fn refresh_changed(c: RefreshCounts) -> bool {
    c.refreshed > 0 || c.dropped_instances > 0 || c.dropped_resources > 0 || c.suppressed_mass_drop
        > 0
}

/// What a refresh reports: a warning unless everything was seen, then what
/// changed, if anything did.
pub open spec fn refresh_report(c: RefreshCounts, coverage: Seq<char>, seen: bool) -> Seq<Seq<char>> {
    (if seen {
        Seq::empty()
    } else {
        seq![blind_text(c, coverage)]
    }) + (if refresh_changed(c) {
        seq![drift_text(c)]
    } else {
        Seq::empty()
    })
}

/// The lines that a refresh reports.
pub fn report_refresh(c: RefreshCounts, coverage: &str, seen: bool) -> (r: Vec<String>)
    ensures
        texts(r@) == refresh_report(c, coverage@, seen),
{
    let mut out: Vec<String> = Vec::new();
    if !seen {
        let kept = text::decimal_text(c.kept_on_error);
        let probed = text::decimal_text(c.probed);
        let head = text::join4("magma: plan-time refresh is ", coverage, " — ", kept.as_str());
        out.push(
            text::join4(
                head.as_str(),
                " of ",
                probed.as_str(),
                " state instance(s) could not be read from the provider. This plan's `before` side is REMEMBERED state, not observed reality; an empty change set here is NOT evidence that anything matches.",
            ),
        );
    }
    let changed = c.refreshed > 0 || c.dropped_instances > 0 || c.dropped_resources > 0
        || c.suppressed_mass_drop > 0;
    if changed {
        let refreshed = text::decimal_text(c.refreshed);
        let instances = text::decimal_text(c.dropped_instances);
        let resources = text::decimal_text(c.dropped_resources);
        let suppressed = text::decimal_text(c.suppressed_mass_drop);
        let a = text::join3(
            "magma: plan-time refresh — ",
            refreshed.as_str(),
            " instance(s) updated from the real world, ",
        );
        let b = text::join3(a.as_str(), instances.as_str(), " confirmed gone (");
        let d = text::join3(b.as_str(), resources.as_str(), " resource(s) dropped from state), ");
        out.push(
            text::join3(
                d.as_str(),
                suppressed.as_str(),
                " suppressed as a mass-drop anomaly (systemic read failure, not genuine drift)",
            ),
        );
    }
    proof {
        assert(texts(out@) =~= refresh_report(c, coverage@, seen));
    }
    out
}

/// A refresh that did not see everything never goes unmentioned.
pub proof fn law_blindness_is_reported(c: RefreshCounts, coverage: Seq<char>)
    ensures
        refresh_report(c, coverage, false).len() > 0,
        refresh_report(c, coverage, false)[0] == blind_text(c, coverage),
{
}

/// A refresh is silent exactly where it saw everything and nothing changed.
pub proof fn law_silence_means_clean(c: RefreshCounts, coverage: Seq<char>, seen: bool)
    ensures
        refresh_report(c, coverage, seen).len() == 0 <==> seen && !refresh_changed(c),
{
}

// ── States ─────────────────────────────────────────────────────────

/// The change that deletes a resource.
pub open spec fn deletion(c: ResourceChange, r: StateResource) -> bool {
    &&& c.address@ == r.address@
    &&& c.action == ResourceAction::Delete
    &&& c.after is None
    &&& match c.before {
        Some(b) => r.instances@.len() > 0 && b@ == r.instances@[0].attributes@,
        None => r.instances@.len() == 0,
    }
}

/// The changes that delete everything in a state: each resource, with the
/// attributes of its first instance.
pub fn destroy_changes(state: &State) -> (r: Vec<ResourceChange>)
    ensures
        r@.len() == state.resources@.len(),
        forall|i: int| 0 <= i < r@.len() ==> deletion(#[trigger] r@[i], state.resources@[i]),
{
    let mut out: Vec<ResourceChange> = Vec::new();
    let mut i: usize = 0;
    while i < state.resources.len()
        invariant
            i <= state.resources@.len(),
            out@.len() == i,
            forall|j: int| 0 <= j < i ==> deletion(#[trigger] out@[j], state.resources@[j]),
        decreases state.resources.len() - i,
    {
        let r = &state.resources[i];
        let before = if r.instances.len() > 0 {
            Some(r.instances[0].attributes.clone())
        } else {
            None
        };
        out.push(
            ResourceChange {
                address: r.address.clone(),
                action: ResourceAction::Delete,
                before,
                after: None,
            },
        );
        i += 1;
    }
    out
}

/// `<type>.<name>`.
pub open spec fn plain_name(a: AddressV) -> Seq<char> {
    a.type_id + "."@ + a.name
}

/// The line for a resource in a listing: its type and name, and the key of
/// the instance, where there is one.
pub open spec fn list_line(a: AddressV) -> Seq<char> {
    match a.key {
        Some(k) => plain_name(a) + " ["@ + k + "]"@,
        None => plain_name(a),
    }
}

/// The lines of a listing of a state.
pub fn state_list(state: &State) -> (r: Vec<String>)
    ensures
        r@.len() == state.resources@.len(),
        forall|i: int|
            0 <= i < r@.len() ==> (#[trigger] r@[i])@ == list_line(state.resources@[i].address@),
{
    let mut out: Vec<String> = Vec::new();
    let mut i: usize = 0;
    while i < state.resources.len()
        invariant
            i <= state.resources@.len(),
            out@.len() == i,
            forall|j: int|
                0 <= j < i ==> (#[trigger] out@[j])@ == list_line(state.resources@[j].address@),
        decreases state.resources.len() - i,
    {
        let a = &state.resources[i].address;
        let name = text::join3(a.type_id.0.as_str(), ".", a.name.as_str());
        let line = match &a.key {
            Some(k) => text::join4(name.as_str(), " [", k.as_str(), "]"),
            None => name,
        };
        out.push(line);
        i += 1;
    }
    out
}

/// The first resource with an address `<type>.<name>`.
pub fn find_resource(state: &State, address: &str) -> (r: Option<usize>)
    ensures
        match r {
            Some(i) => i < state.resources@.len() && plain_name(state.resources@[i as int].address@)
                == address@ && forall|j: int|
                0 <= j < i ==> plain_name((#[trigger] state.resources@[j]).address@) != address@,
            None => forall|j: int|
                0 <= j < state.resources@.len() ==> plain_name((#[trigger] state.resources@[j]).address@)
                    != address@,
        },
{
    let mut i: usize = 0;
    while i < state.resources.len()
        invariant
            i <= state.resources@.len(),
            forall|j: int|
                0 <= j < i ==> plain_name((#[trigger] state.resources@[j]).address@) != address@,
        decreases state.resources.len() - i,
    {
        let a = &state.resources[i].address;
        let name = text::join3(a.type_id.0.as_str(), ".", a.name.as_str());
        if text::same(name.as_str(), address) {
            return Some(i);
        }
        i += 1;
    }
    None
}

// ── Moving resources ───────────────────────────────────────────────

/// A resource on its way from one address to another.
#[derive(Debug)]
pub struct ResourceMove {
    pub source_address: String,
    pub target_address: String,
}

/// A workspace, and where its state is kept.
#[derive(Debug)]
pub struct WorkspaceRef {
    pub name: String,
    pub state_path: String,
}

/// Resources on their way from one workspace to another.
#[derive(Debug)]
pub struct MigrationPlan {
    pub from: WorkspaceRef,
    pub to: WorkspaceRef,
    pub moves: Vec<ResourceMove>,
    pub dry_run: bool,
}

/// Each address moves to itself.
pub open spec fn moves_over(moves: Seq<ResourceMove>, addresses: Seq<Seq<char>>) -> bool {
    &&& moves.len() == addresses.len()
    &&& forall|i: int|
        0 <= i < moves.len() ==> (#[trigger] moves[i]).source_address@ == addresses[i]
            && moves[i].target_address@ == addresses[i]
}

/// The plan that moves resources from one workspace to another.
pub fn migration_plan(
    from_name: &str,
    from_state: &str,
    to_name: &str,
    to_state: &str,
    moves: Vec<ResourceMove>,
    dry_run: bool,
) -> (r: MigrationPlan)
    ensures
        r.from.name@ == from_name@,
        r.from.state_path@ == from_state@,
        r.to.name@ == to_name@,
        r.to.state_path@ == to_state@,
        r.moves == moves,
        r.dry_run == dry_run,
{
    MigrationPlan {
        from: WorkspaceRef { name: from_name.to_owned(), state_path: from_state.to_owned() },
        to: WorkspaceRef { name: to_name.to_owned(), state_path: to_state.to_owned() },
        moves,
        dry_run,
    }
}

fn move_over(address: String) -> (r: ResourceMove)
    ensures
        r.source_address@ == address@,
        r.target_address@ == address@,
{
    let copy = address.clone();
    ResourceMove { source_address: copy, target_address: address }
}

/// The moves that split resources off: at least one must be named.
pub fn split_moves(resources: &Vec<String>) -> (r: Result<Vec<ResourceMove>, String>)
    ensures
        match r {
            Ok(ms) => resources@.len() > 0 && moves_over(ms@, texts(resources@)),
            Err(e) => resources@.len() == 0 && e@
                == "magma split: at least one --resource is required"@,
        },
{
    if resources.len() == 0 {
        return Err("magma split: at least one --resource is required".to_owned());
    }
    let mut out: Vec<ResourceMove> = Vec::new();
    let mut i: usize = 0;
    while i < resources.len()
        invariant
            i <= resources@.len(),
            out@.len() == i,
            forall|j: int|
                0 <= j < i ==> (#[trigger] out@[j]).source_address@ == resources@[j]@
                    && out@[j].target_address@ == resources@[j]@,
        decreases resources.len() - i,
    {
        out.push(move_over(resources[i].clone()));
        i += 1;
    }
    Ok(out)
}

/// The address of a resource in a stored state.
pub open spec fn stored_address(v: JsonV) -> Result<Seq<char>, Seq<char>> {
    match (member(v, "type"@), member(v, "name"@)) {
        (Some(JsonV::String(t)), Some(JsonV::String(n))) => Ok(t + "."@ + n),
        (Some(JsonV::String(_)), _) => Err("resource missing `name`"@),
        _ => Err("resource missing `type`"@),
    }
}

/// The addresses of resources in a stored state, or what is said of the first
/// one that has none.
pub open spec fn stored_addresses(xs: Seq<JsonV>) -> Result<Seq<Seq<char>>, Seq<char>>
    decreases xs.len(),
{
    if xs.len() == 0 {
        Ok(Seq::empty())
    } else {
        match stored_addresses(xs.drop_last()) {
            Err(e) => Err(e),
            Ok(done) => match stored_address(xs.last()) {
                Err(e) => Err(e),
                Ok(a) => Ok(done.push(a)),
            },
        }
    }
}

/// The addresses in a stored state.
pub open spec fn all_addresses(state: JsonV) -> Result<Seq<Seq<char>>, Seq<char>> {
    match member(state, "resources"@) {
        Some(JsonV::Array(xs)) => stored_addresses(xs),
        _ => Err("source state has no resources array"@),
    }
}

proof fn lemma_stored_error(xs: Seq<JsonV>, n: int)
    requires
        0 <= n <= xs.len(),
        stored_addresses(xs.take(n)) is Err,
    ensures
        stored_addresses(xs) == stored_addresses(xs.take(n)),
    decreases xs.len(),
{
    if n == xs.len() {
        assert(xs.take(n) =~= xs);
    } else {
        assert(xs.drop_last().take(n) =~= xs.take(n));
        lemma_stored_error(xs.drop_last(), n);
    }
}

fn read_address(v: &Json) -> (r: Result<String, String>)
    ensures
        match r {
            Ok(a) => stored_address(v@) == Ok::<Seq<char>, Seq<char>>(a@),
            Err(e) => stored_address(v@) == Err::<Seq<char>, Seq<char>>(e@),
        },
{
    let kind = match v.get("type") {
        Some(Json::String(t)) => t,
        _ => {
            return Err("resource missing `type`".to_owned());
        },
    };
    let name = match v.get("name") {
        Some(Json::String(n)) => n,
        _ => {
            return Err("resource missing `name`".to_owned());
        },
    };
    Ok(text::join3(kind.as_str(), ".", name.as_str()))
}

/// The moves that bring every resource of a stored state over.
pub fn merge_moves(state: &Json) -> (r: Result<Vec<ResourceMove>, String>)
    ensures
        match all_addresses(state@) {
            Ok(names) => r matches Ok(ms) && moves_over(ms@, names),
            Err(e) => r matches Err(m) && m@ == e,
        },
{
    let xs = match state.get("resources") {
        Some(Json::Array(xs)) => xs,
        _ => {
            return Err("source state has no resources array".to_owned());
        },
    };
    proof {
        json::lemma_array_view(*xs);
    }
    let ghost all = json::list_view(xs@);
    let mut out: Vec<ResourceMove> = Vec::new();
    let mut i: usize = 0;
    proof {
        assert(all.take(0) =~= Seq::empty());
    }
    while i < xs.len()
        invariant
            i <= xs@.len(),
            all == json::list_view(xs@),
            all_addresses(state@) == stored_addresses(all),
            stored_addresses(all.take(i as int)) is Ok,
            moves_over(out@, stored_addresses(all.take(i as int))->Ok_0),
        decreases xs.len() - i,
    {
        proof {
            assert(all.take(i + 1).drop_last() =~= all.take(i as int));
            assert(all.take(i + 1).last() == xs@[i as int]@);
        }
        match read_address(&xs[i]) {
            Err(e) => {
                proof {
                    lemma_stored_error(all, i + 1);
                }
                return Err(e);
            },
            Ok(a) => {
                let ghost before = out@;
                let ghost names = stored_addresses(all.take(i as int))->Ok_0;
                let m = move_over(a);
                out.push(m);
                proof {
                    let now = names.push(a@);
                    assert forall|j: int| 0 <= j < out@.len() implies (
                    #[trigger] out@[j]).source_address@ == now[j] && out@[j].target_address@
                        == now[j] by {
                        if j < before.len() {
                            assert(out@[j] == before[j]);
                        }
                    }
                }
            },
        }
        i += 1;
    }
    proof {
        assert(all.take(all.len() as int) =~= all);
    }
    Ok(out)
}

// ── Reports ────────────────────────────────────────────────────────

/// Words as JSON strings.
pub open spec fn word_list(ws: Seq<Seq<char>>) -> JsonV {
    JsonV::Array(ws.map_values(|w: Seq<char>| JsonV::String(w)))
}

pub open spec fn strs(v: Seq<&str>) -> Seq<Seq<char>> {
    Seq::new(v.len(), |i: int| v[i]@)
}

fn words(ws: &Vec<&str>) -> (r: Json)
    ensures
        r@ == word_list(strs(ws@)),
{
    let mut out: Vec<Json> = Vec::new();
    let mut i: usize = 0;
    while i < ws.len()
        invariant
            i <= ws@.len(),
            out@.len() == i,
            forall|j: int| 0 <= j < i ==> (#[trigger] out@[j])@ == JsonV::String(ws@[j]@),
        decreases ws.len() - i,
    {
        out.push(Json::string(ws[i]));
        i += 1;
    }
    proof {
        json::lemma_array_view(out);
        assert(json::list_view(out@) =~= word_list(strs(ws@))->Array_0);
    }
    Json::Array(out)
}

fn text_words(ws: &Vec<String>) -> (r: Json)
    ensures
        r@ == word_list(texts(ws@)),
{
    let mut out: Vec<Json> = Vec::new();
    let mut i: usize = 0;
    while i < ws.len()
        invariant
            i <= ws@.len(),
            out@.len() == i,
            forall|j: int| 0 <= j < i ==> (#[trigger] out@[j])@ == JsonV::String(ws@[j]@),
        decreases ws.len() - i,
    {
        out.push(Json::string(ws[i].as_str()));
        i += 1;
    }
    proof {
        json::lemma_array_view(out);
        assert(json::list_view(out@) =~= word_list(texts(ws@))->Array_0);
    }
    Json::Array(out)
}

/// What is reported of something that could not be examined, or broke a law.
pub open spec fn failure_json(
    subject: Seq<char>,
    path: Seq<char>,
    status: Seq<char>,
    error: Seq<char>,
) -> JsonV {
    JsonV::Object(
        collect(
            seq![
                (subject, JsonV::String(path)),
                ("status"@, JsonV::String(status)),
                ("error"@, JsonV::String(error)),
            ],
        ),
    )
}

/// What is reported of something that could not be examined, or broke a law:
/// what it is and where, how it stands, and why.
pub fn failure_report(subject: &str, path: &str, status: &str, error: &str) -> (r: Json)
    ensures
        r@ == failure_json(subject@, path@, status@, error@),
{
    let members = vec![
        (subject.to_owned(), Json::string(path)),
        ("status".to_owned(), Json::string(status)),
        ("error".to_owned(), Json::string(error)),
    ];
    proof {
        assert(members_view(members@) =~= seq![
            (subject@, JsonV::String(path@)),
            ("status"@, JsonV::String(status@)),
            ("error"@, JsonV::String(error@)),
        ]);
    }
    Json::object(members)
}

/// What is reported of a workspace that keeps every law.
pub open spec fn passed_json(path: Seq<char>, report: JsonV) -> JsonV {
    JsonV::Object(
        collect(
            seq![
                ("path"@, JsonV::String(path)),
                ("status"@, JsonV::String("passed"@)),
                (
                    "laws"@,
                    word_list(
                        seq!["architecture::assert_all_laws"@, "workspace::assert_all_laws"@],
                    ),
                ),
                ("report"@, report),
            ],
        ),
    )
}

/// What is reported of a workspace that keeps every law.
pub fn passed_report(path: &str, report: Json) -> (r: Json)
    ensures
        r@ == passed_json(path@, report@),
{
    let laws = vec!["architecture::assert_all_laws", "workspace::assert_all_laws"];
    let members = vec![
        ("path".to_owned(), Json::string(path)),
        ("status".to_owned(), Json::string("passed")),
        ("laws".to_owned(), words(&laws)),
        ("report".to_owned(), report),
    ];
    proof {
        assert(strs(laws@) =~= seq![
            "architecture::assert_all_laws"@,
            "workspace::assert_all_laws"@,
        ]);
        assert(members_view(members@) =~= seq![
            ("path"@, JsonV::String(path@)),
            ("status"@, JsonV::String("passed"@)),
            (
                "laws"@,
                word_list(seq!["architecture::assert_all_laws"@, "workspace::assert_all_laws"@]),
            ),
            ("report"@, report@),
        ]);
    }
    Json::object(members)
}

// ── Capabilities ───────────────────────────────────────────────────

pub open spec fn subcommand_names() -> Seq<Seq<char>> {
    seq![
        "init"@,
        "plan"@,
        "apply"@,
        "destroy"@,
        "state"@,
        "import"@,
        "workspace"@,
        "output"@,
        "show"@,
        "refresh"@,
        "taint"@,
        "force-unlock"@,
        "get"@,
        "fmt"@,
        "validate"@,
        "console"@,
        "mcp"@,
        "daemon"@,
        "watch"@,
        "attest"@,
        "config"@,
        "flow"@,
        "capabilities"@,
    ]
}

pub open spec fn env_names() -> Seq<Seq<char>> {
    seq![
        "TF_VAR_*"@,
        "TF_DATA_DIR"@,
        "TF_LOG"@,
        "TF_LOG_PATH"@,
        "TF_CLI_ARGS_*"@,
        "TF_INPUT"@,
        "TF_IN_AUTOMATION"@,
        "TF_TOKEN_*"@,
        "TF_PLUGIN_CACHE_DIR"@,
        "TF_WORKSPACE"@,
        "MAGMA_OUTPUT"@,
        "MAGMA_INVOKE_AS"@,
    ]
}

/// The ways to reach the program.
pub open spec fn interfaces_json(tools: nat) -> JsonV {
    JsonV::Object(
        collect(
            seq![
                (
                    "drop_in_cli"@,
                    JsonV::Object(
                        collect(
                            seq![
                                (
                                    "argv0_modes"@,
                                    word_list(seq!["terraform"@, "tofu"@, "magma"@]),
                                ),
                            ],
                        ),
                    ),
                ),
                (
                    "native_cli"@,
                    JsonV::Object(collect(seq![("json_flag"@, JsonV::Bool(true))])),
                ),
                (
                    "mcp"@,
                    JsonV::Object(
                        collect(
                            seq![
                                ("transport"@, JsonV::String("stdin-stdout-jsonrpc2"@)),
                                ("tools"@, number(tools)),
                            ],
                        ),
                    ),
                ),
                (
                    "library"@,
                    JsonV::Object(collect(seq![("umbrella_crate"@, JsonV::String("magma"@))])),
                ),
            ],
        ),
    )
}

/// The codes that the program ends with.
pub open spec fn exit_codes_json() -> JsonV {
    JsonV::Object(
        collect(
            seq![
                ("0"@, JsonV::String("success"@)),
                ("1"@, JsonV::String("error"@)),
                ("2"@, JsonV::String("plan: changes pending (-detailed-exitcode)"@)),
            ],
        ),
    )
}

/// What the program can do, for callers that ask it.
pub open spec fn capabilities_json(version: Seq<char>, tools: Seq<Seq<char>>) -> JsonV {
    JsonV::Object(
        collect(
            seq![
                ("tool"@, JsonV::String("magma"@)),
                ("version"@, JsonV::String(version)),
                ("schema_version"@, number(1)),
                ("supported_protocols"@, word_list(seq!["tfplugin5"@, "tfplugin6"@])),
                ("input_formats"@, word_list(seq!["pangea-ruby-inprocess"@, "terraform-json"@])),
                ("input_formats_excluded"@, word_list(seq!["hcl2"@])),
                ("backends"@, word_list(seq!["local"@, "s3 (planned M1)"@])),
                ("subcommands"@, word_list(subcommand_names())),
                ("interfaces"@, interfaces_json(tools.len())),
                ("mcp_tools"@, word_list(tools)),
                ("env_vars_honored"@, word_list(env_names())),
                ("exit_codes"@, exit_codes_json()),
                ("workspace_primitive_supported"@, JsonV::Bool(true)),
                ("workspace_chain_supported"@, JsonV::Bool(true)),
                ("in_memory_pipeline_supported"@, JsonV::Bool(true)),
                ("shigoto_job_wrapping"@, JsonV::String("planned (M1)"@)),
            ],
        ),
    )
}

fn interfaces(tools: usize) -> (r: Json)
    ensures
        r@ == interfaces_json(tools as nat),
{
    let names = vec!["terraform", "tofu", "magma"];
    let modes = vec![("argv0_modes".to_owned(), words(&names))];
    let native = vec![("json_flag".to_owned(), Json::Bool(true))];
    let mcp = vec![
        ("transport".to_owned(), Json::string("stdin-stdout-jsonrpc2")),
        ("tools".to_owned(), count(tools)),
    ];
    let library = vec![("umbrella_crate".to_owned(), Json::string("magma"))];
    proof {
        assert(strs(names@) =~= seq!["terraform"@, "tofu"@, "magma"@]);
        assert(members_view(modes@) =~= seq![
            ("argv0_modes"@, word_list(seq!["terraform"@, "tofu"@, "magma"@])),
        ]);
        assert(members_view(native@) =~= seq![("json_flag"@, JsonV::Bool(true))]);
        assert(members_view(mcp@) =~= seq![
            ("transport"@, JsonV::String("stdin-stdout-jsonrpc2"@)),
            ("tools"@, number(tools as nat)),
        ]);
        assert(members_view(library@) =~= seq![("umbrella_crate"@, JsonV::String("magma"@))]);
    }
    let ghost m0 = members_view(modes@);
    let ghost m1 = members_view(native@);
    let ghost m2 = members_view(mcp@);
    let ghost m3 = members_view(library@);
    let members = vec![
        ("drop_in_cli".to_owned(), Json::object(modes)),
        ("native_cli".to_owned(), Json::object(native)),
        ("mcp".to_owned(), Json::object(mcp)),
        ("library".to_owned(), Json::object(library)),
    ];
    proof {
        assert(members_view(members@) =~= seq![
            ("drop_in_cli"@, JsonV::Object(collect(m0))),
            ("native_cli"@, JsonV::Object(collect(m1))),
            ("mcp"@, JsonV::Object(collect(m2))),
            ("library"@, JsonV::Object(collect(m3))),
        ]);
    }
    Json::object(members)
}

fn exit_codes() -> (r: Json)
    ensures
        r@ == exit_codes_json(),
{
    let members = vec![
        ("0".to_owned(), Json::string("success")),
        ("1".to_owned(), Json::string("error")),
        ("2".to_owned(), Json::string("plan: changes pending (-detailed-exitcode)")),
    ];
    proof {
        assert(members_view(members@) =~= seq![
            ("0"@, JsonV::String("success"@)),
            ("1"@, JsonV::String("error"@)),
            ("2"@, JsonV::String("plan: changes pending (-detailed-exitcode)"@)),
        ]);
    }
    Json::object(members)
}

fn subcommands() -> (r: Json)
    ensures
        r@ == word_list(subcommand_names()),
{
    let names = vec![
        "init",
        "plan",
        "apply",
        "destroy",
        "state",
        "import",
        "workspace",
        "output",
        "show",
        "refresh",
        "taint",
        "force-unlock",
        "get",
        "fmt",
        "validate",
        "console",
        "mcp",
        "daemon",
        "watch",
        "attest",
        "config",
        "flow",
        "capabilities",
    ];
    proof {
        assert(strs(names@) =~= subcommand_names());
    }
    words(&names)
}

fn env_vars() -> (r: Json)
    ensures
        r@ == word_list(env_names()),
{
    let names = vec![
        "TF_VAR_*",
        "TF_DATA_DIR",
        "TF_LOG",
        "TF_LOG_PATH",
        "TF_CLI_ARGS_*",
        "TF_INPUT",
        "TF_IN_AUTOMATION",
        "TF_TOKEN_*",
        "TF_PLUGIN_CACHE_DIR",
        "TF_WORKSPACE",
        "MAGMA_OUTPUT",
        "MAGMA_INVOKE_AS",
    ];
    proof {
        assert(strs(names@) =~= env_names());
    }
    words(&names)
}

/// What the program can do, for callers that ask it.
pub fn capabilities(version: &str, tools: &Vec<String>) -> (r: Json)
    ensures
        r@ == capabilities_json(version@, texts(tools@)),
{
    let protocols = vec!["tfplugin5", "tfplugin6"];
    let formats = vec!["pangea-ruby-inprocess", "terraform-json"];
    let excluded = vec!["hcl2"];
    let backends = vec!["local", "s3 (planned M1)"];
    proof {
        assert(strs(protocols@) =~= seq!["tfplugin5"@, "tfplugin6"@]);
        assert(strs(formats@) =~= seq!["pangea-ruby-inprocess"@, "terraform-json"@]);
        assert(strs(excluded@) =~= seq!["hcl2"@]);
        assert(strs(backends@) =~= seq!["local"@, "s3 (planned M1)"@]);
        assert(texts(tools@).len() == tools@.len());
    }
    let members = vec![
        ("tool".to_owned(), Json::string("magma")),
        ("version".to_owned(), Json::string(version)),
        ("schema_version".to_owned(), count(1)),
        ("supported_protocols".to_owned(), words(&protocols)),
        ("input_formats".to_owned(), words(&formats)),
        ("input_formats_excluded".to_owned(), words(&excluded)),
        ("backends".to_owned(), words(&backends)),
        ("subcommands".to_owned(), subcommands()),
        ("interfaces".to_owned(), interfaces(tools.len())),
        ("mcp_tools".to_owned(), text_words(tools)),
        ("env_vars_honored".to_owned(), env_vars()),
        ("exit_codes".to_owned(), exit_codes()),
        ("workspace_primitive_supported".to_owned(), Json::Bool(true)),
        ("workspace_chain_supported".to_owned(), Json::Bool(true)),
        ("in_memory_pipeline_supported".to_owned(), Json::Bool(true)),
        ("shigoto_job_wrapping".to_owned(), Json::string("planned (M1)")),
    ];
    proof {
        assert(members_view(members@) =~= seq![
            ("tool"@, JsonV::String("magma"@)),
            ("version"@, JsonV::String(version@)),
            ("schema_version"@, number(1)),
            ("supported_protocols"@, word_list(seq!["tfplugin5"@, "tfplugin6"@])),
            ("input_formats"@, word_list(seq!["pangea-ruby-inprocess"@, "terraform-json"@])),
            ("input_formats_excluded"@, word_list(seq!["hcl2"@])),
            ("backends"@, word_list(seq!["local"@, "s3 (planned M1)"@])),
            ("subcommands"@, word_list(subcommand_names())),
            ("interfaces"@, interfaces_json(texts(tools@).len())),
            ("mcp_tools"@, word_list(texts(tools@))),
            ("env_vars_honored"@, word_list(env_names())),
            ("exit_codes"@, exit_codes_json()),
            ("workspace_primitive_supported"@, JsonV::Bool(true)),
            ("workspace_chain_supported"@, JsonV::Bool(true)),
            ("in_memory_pipeline_supported"@, JsonV::Bool(true)),
            ("shigoto_job_wrapping"@, JsonV::String("planned (M1)"@)),
        ]);
    }
    Json::object(members)
}

/// A mode that is asked for counts, whatever the program is called; else a
/// name that begins with `terraform` or `tofu` does, and any other is native.
pub proof fn law_modes(a: Seq<char>, b: Seq<char>, forced: Seq<char>)
    ensures
        named_mode(a, Some(forced)) == named_mode(b, Some(forced)),
        named_mode(a, Some("terraform"@)) == InvokeMode::TerraformCompat,
        named_mode(a, Some("tofu"@)) == InvokeMode::OpenTofuCompat,
        named_mode(a, Some(forced)) == InvokeMode::MagmaNative <==> forced != "terraform"@ && forced
            != "tofu"@,
        named_mode("terraform"@ + a, None) == InvokeMode::TerraformCompat,
        named_mode("tofu"@ + a, None) == InvokeMode::OpenTofuCompat,
        named_mode(a, None) == InvokeMode::MagmaNative <==> !stands_at(a, "terraform"@, 0)
            && !stands_at(a, "tofu"@, 0),
{
    reveal_strlit("terraform");
    reveal_strlit("tofu");
    assert("terraform"@[1] == 'e' && "tofu"@[1] == 'o');
    assert(("terraform"@ + a).subrange(0, "terraform"@.len() as int) =~= "terraform"@);
    assert(("tofu"@ + a).subrange(0, "tofu"@.len() as int) =~= "tofu"@);
    let s = "tofu"@ + a;
    if stands_at(s, "terraform"@, 0) {
        assert(s.subrange(0, "terraform"@.len() as int)[1] == s[1]);
    }
}

proof fn lemma_variable_names(rest: Seq<char>)
    ensures
        ({
            let var = "TF_VAR_"@ + rest;
            let token = "TF_TOKEN_"@ + rest;
            let args = "TF_CLI_ARGS_"@ + rest;
            let fixed = |k: Seq<char>|
                k == "TF_DATA_DIR"@ || k == "TF_LOG"@ || k == "TF_LOG_PATH"@ || k == "TF_INPUT"@ || k
                    == "TF_IN_AUTOMATION"@ || k == "TF_WORKSPACE"@ || k == "TF_PLUGIN_CACHE_DIR"@;
            &&& !fixed(var) && !fixed(token) && !fixed(args)
            &&& stands_at(var, "TF_VAR_"@, 0)
            &&& !stands_at(token, "TF_VAR_"@, 0) && stands_at(token, "TF_TOKEN_"@, 0)
            &&& !stands_at(args, "TF_VAR_"@, 0) && !stands_at(args, "TF_TOKEN_"@, 0) && stands_at(
                args,
                "TF_CLI_ARGS_"@,
                0,
            )
            &&& !stands_at(token, "TF_CLI_ARGS_"@, 0)
            &&& var.skip("TF_VAR_"@.len() as int) == rest
            &&& token.skip("TF_TOKEN_"@.len() as int) == rest
            &&& args.skip("TF_CLI_ARGS_"@.len() as int) == rest
        }),
{
    reveal_strlit("TF_VAR_");
    reveal_strlit("TF_TOKEN_");
    reveal_strlit("TF_CLI_ARGS_");
    reveal_strlit("TF_DATA_DIR");
    reveal_strlit("TF_LOG");
    reveal_strlit("TF_LOG_PATH");
    reveal_strlit("TF_INPUT");
    reveal_strlit("TF_IN_AUTOMATION");
    reveal_strlit("TF_WORKSPACE");
    reveal_strlit("TF_PLUGIN_CACHE_DIR");
    let var = "TF_VAR_"@ + rest;
    let token = "TF_TOKEN_"@ + rest;
    let args = "TF_CLI_ARGS_"@ + rest;
    assert(var[3] == 'V' && token[3] == 'T' && args[3] == 'C');
    assert("TF_DATA_DIR"@[3] == 'D' && "TF_LOG"@[3] == 'L' && "TF_LOG_PATH"@[3] == 'L');
    assert("TF_INPUT"@[3] == 'I' && "TF_IN_AUTOMATION"@[3] == 'I' && "TF_WORKSPACE"@[3] == 'W');
    assert("TF_PLUGIN_CACHE_DIR"@[3] == 'P');
    assert(var.subrange(0, "TF_VAR_"@.len() as int) =~= "TF_VAR_"@);
    assert(token.subrange(0, "TF_TOKEN_"@.len() as int) =~= "TF_TOKEN_"@);
    assert(args.subrange(0, "TF_CLI_ARGS_"@.len() as int) =~= "TF_CLI_ARGS_"@);
    if stands_at(token, "TF_VAR_"@, 0) {
        assert(token.subrange(0, "TF_VAR_"@.len() as int)[3] == token[3]);
    }
    if stands_at(args, "TF_VAR_"@, 0) {
        assert(args.subrange(0, "TF_VAR_"@.len() as int)[3] == args[3]);
    }
    if stands_at(args, "TF_TOKEN_"@, 0) {
        assert(args.subrange(0, "TF_TOKEN_"@.len() as int)[3] == args[3]);
    }
    if stands_at(token, "TF_CLI_ARGS_"@, 0) {
        assert(token.subrange(0, "TF_CLI_ARGS_"@.len() as int)[3] == token[3]);
    }
    assert(var.skip("TF_VAR_"@.len() as int) =~= rest);
    assert(token.skip("TF_TOKEN_"@.len() as int) =~= rest);
    assert(args.skip("TF_CLI_ARGS_"@.len() as int) =~= rest);
}

/// A variable of the configuration and the arguments of a command are filed
/// under their names in lower case, the token of a registry under the name as
/// it is; each leaves everything else as it was.
pub proof fn law_prefixed_variables(e: EnvV, rest: Seq<char>, v: Seq<char>)
    ensures
        with_variable(e, "TF_VAR_"@ + rest, v) == (EnvV {
            vars: put(e.vars, lowered(rest), v),
            ..e
        }),
        with_variable(e, "TF_TOKEN_"@ + rest, v) == (EnvV {
            registry_tokens: put(e.registry_tokens, rest, v),
            ..e
        }),
        with_variable(e, "TF_CLI_ARGS_"@ + rest, v) == (EnvV {
            cli_args: put(e.cli_args, lowered(rest), v),
            ..e
        }),
{
    lemma_variable_names(rest);
}

/// Input is off where it is switched off by one of three words, in whatever
/// case; automation is on where its variable holds anything.
pub proof fn law_switches(e: EnvV, v: Seq<char>)
    ensures
        with_variable(e, "TF_INPUT"@, v) == (EnvV {
            input_enabled: !(lowered(v) == "false"@ || lowered(v) == "0"@ || lowered(v) == "no"@),
            ..e
        }),
        with_variable(e, "TF_IN_AUTOMATION"@, v) == (EnvV { in_automation: v.len() > 0, ..e }),
        with_variable(e, "TF_DATA_DIR"@, v) == (EnvV { data_dir: Some(v), ..e }),
        with_variable(e, "TF_LOG"@, v) == (EnvV { log_level: Some(v), ..e }),
        with_variable(e, "TF_LOG_PATH"@, v) == (EnvV { log_path: Some(v), ..e }),
        with_variable(e, "TF_WORKSPACE"@, v) == (EnvV { workspace: Some(v), ..e }),
        with_variable(e, "TF_PLUGIN_CACHE_DIR"@, v) == (EnvV { plugin_cache_dir: Some(v), ..e }),
{
    reveal_strlit("TF_DATA_DIR");
    reveal_strlit("TF_LOG");
    reveal_strlit("TF_LOG_PATH");
    reveal_strlit("TF_INPUT");
    reveal_strlit("TF_IN_AUTOMATION");
    reveal_strlit("TF_WORKSPACE");
    reveal_strlit("TF_PLUGIN_CACHE_DIR");
    assert("TF_DATA_DIR"@.len() == 11 && "TF_LOG"@.len() == 6 && "TF_LOG_PATH"@.len() == 11);
    assert("TF_INPUT"@.len() == 8 && "TF_IN_AUTOMATION"@.len() == 16);
    assert("TF_WORKSPACE"@.len() == 12 && "TF_PLUGIN_CACHE_DIR"@.len() == 19);
    assert("TF_DATA_DIR"@[3] == 'D' && "TF_LOG_PATH"@[3] == 'L');
}

/// The environment is read variable by variable; what is not known to it
/// changes nothing.
pub proof fn law_environment_in_order(vars: Texts, k: Seq<char>, v: Seq<char>)
    ensures
        env_of(vars.push((k, v))) == with_variable(env_of(vars), k, v),
        !stands_at(k, "TF_"@, 0) ==> env_of(vars.push((k, v))) == env_of(vars),
        env_of(Seq::empty()).input_enabled && !env_of(Seq::empty()).in_automation,
{
    assert(vars.push((k, v)).drop_last() =~= vars);
    reveal_strlit("TF_");
    reveal_strlit("TF_VAR_");
    reveal_strlit("TF_TOKEN_");
    reveal_strlit("TF_CLI_ARGS_");
    reveal_strlit("TF_DATA_DIR");
    reveal_strlit("TF_LOG");
    reveal_strlit("TF_LOG_PATH");
    reveal_strlit("TF_INPUT");
    reveal_strlit("TF_IN_AUTOMATION");
    reveal_strlit("TF_WORKSPACE");
    reveal_strlit("TF_PLUGIN_CACHE_DIR");
    if !stands_at(k, "TF_"@, 0) {
        lemma_not_ours(k, "TF_VAR_"@);
        lemma_not_ours(k, "TF_TOKEN_"@);
        lemma_not_ours(k, "TF_CLI_ARGS_"@);
        lemma_not_ours(k, "TF_DATA_DIR"@);
        lemma_not_ours(k, "TF_LOG"@);
        lemma_not_ours(k, "TF_LOG_PATH"@);
        lemma_not_ours(k, "TF_INPUT"@);
        lemma_not_ours(k, "TF_IN_AUTOMATION"@);
        lemma_not_ours(k, "TF_WORKSPACE"@);
        lemma_not_ours(k, "TF_PLUGIN_CACHE_DIR"@);
    }
}

proof fn lemma_not_ours(k: Seq<char>, word: Seq<char>)
    requires
        !stands_at(k, "TF_"@, 0),
        word.len() >= 3,
        word[0] == 'T' && word[1] == 'F' && word[2] == '_',
    ensures
        !stands_at(k, word, 0),
        k != word,
{
    reveal_strlit("TF_");
    if stands_at(k, word, 0) {
        let f = k.subrange(0, word.len() as int);
        assert(f[0] == k[0] && f[1] == k[1] && f[2] == k[2]);
        assert(k.subrange(0, "TF_"@.len() as int) =~= "TF_"@);
    }
    if k == word {
        assert(k.subrange(0, "TF_"@.len() as int) =~= "TF_"@);
    }
}

/// A binding takes the place of the one of its name, and stands at the end
/// where there is none.
pub proof fn law_bindings_keep_their_place(s: Texts, k: Seq<char>, v: Seq<char>, i: int)
    ensures
        0 <= i < s.len() && s[i].0 == k && (forall|j: int| 0 <= j < i ==> (#[trigger] s[j]).0 != k)
            ==> bind(s, k, v) == s.update(i, (k, v)),
        (forall|j: int| 0 <= j < s.len() ==> (#[trigger] s[j]).0 != k) ==> bind(s, k, v) == s.push(
            (k, v),
        ),
    decreases s.len(),
{
    if s.len() > 0 {
        let t = s.drop_first();
        law_bindings_keep_their_place(t, k, v, i - 1);
        assert forall|j: int| 0 <= j < t.len() implies #[trigger] t[j] == s[j + 1] by {}
        if 0 <= i < s.len() && s[i].0 == k && (forall|j: int|
            0 <= j < i ==> (#[trigger] s[j]).0 != k) {
            if i == 0 {
                assert(bind(s, k, v) =~= s.update(0, (k, v)));
            } else {
                assert(s[0].0 != k);
                assert(t[i - 1] == s[i]);
                assert forall|j: int| 0 <= j < i - 1 implies (#[trigger] t[j]).0 != k by {
                    assert(s[j + 1].0 != k);
                }
                assert(bind(s, k, v) =~= s.update(i, (k, v)));
            }
        }
        if forall|j: int| 0 <= j < s.len() ==> (#[trigger] s[j]).0 != k {
            assert(s[0].0 != k);
            assert forall|j: int| 0 <= j < t.len() implies (#[trigger] t[j]).0 != k by {
                assert(s[j + 1].0 != k);
            }
            assert(bind(s, k, v) =~= s.push((k, v)));
        }
    } else {
        assert(bind(s, k, v) =~= s.push((k, v)));
    }
}

/// A binding is cut at its first equals sign; one without is refused, and with
/// it all of them.
pub proof fn law_bindings_need_a_value(kvs: Seq<Seq<char>>, k: Seq<char>, v: Seq<char>)
    requires
        !k.contains('='),
    ensures
        bindings(kvs) matches Ok(s) ==> bindings(kvs.push(k + seq!['='] + v)) == Ok::<
            Texts,
            Seq<char>,
        >(bind(s, k, v)),
        bindings(kvs.push(k)) is Err,
        bindings(kvs) matches Err(e) ==> bindings(kvs.push(k + seq!['='] + v)) == Err::<
            Texts,
            Seq<char>,
        >(e),
{
    assert(kvs.push(k + seq!['='] + v).drop_last() =~= kvs);
    assert(kvs.push(k).drop_last() =~= kvs);
    text::law_cut_at_the_first(k, '=', v);
}

/// A change alters something unless it does nothing or only reads.
pub proof fn law_what_alters(a: ResourceAction)
    ensures
        !alters(a) <==> a == ResourceAction::NoOp || a == ResourceAction::Read,
{
}

/// What was observed is reported where anything changed, and only there.
pub proof fn law_drift_is_reported(c: RefreshCounts, coverage: Seq<char>, seen: bool)
    ensures
        refresh_report(c, coverage, seen).len() == (if seen {
            0int
        } else {
            1
        }) + (if refresh_changed(c) {
            1int
        } else {
            0
        }),
        refresh_changed(c) ==> refresh_report(c, coverage, seen).last() == drift_text(c),
        refresh_changed(c) <==> c.refreshed + c.dropped_instances + c.dropped_resources
            + c.suppressed_mass_drop > 0,
{
}

proof fn lemma_stored_gather(xs: Seq<JsonV>, n: int)
    requires
        0 <= n <= xs.len(),
    ensures
        gather::gathered(stored_addresses(xs.take(n)), n, |i: int| stored_address(xs[i])),
    decreases n,
{
    if n > 0 {
        lemma_stored_gather(xs, n - 1);
        let b = xs.take(n);
        assert(b.drop_last() =~= xs.take(n - 1));
        gather::lemma_gathered_push(
            stored_addresses(xs.take(n - 1)),
            stored_addresses(b),
            n - 1,
            |i: int| stored_address(xs[i]),
        );
    }
}

/// The addresses in a state are those of its resources, in order: type and
/// name with a dot between. A resource that lacks one of them is refused, and
/// so is a state without a list of resources.
pub proof fn law_stored_addresses_in_order(state: JsonV, v: JsonV, t: Seq<char>, n: Seq<char>)
    ensures
        all_addresses(state) is Ok ==> member(state, "resources"@) is Some && member(
            state,
            "resources"@,
        )->Some_0 is Array,
        member(state, "resources"@) matches Some(JsonV::Array(xs)) ==> gather::gathered(
            all_addresses(state),
            xs.len() as int,
            |i: int| stored_address(xs[i]),
        ),
        member(v, "type"@) == Some(JsonV::String(t)) && member(v, "name"@) == Some(JsonV::String(n))
            ==> stored_address(v) == Ok::<Seq<char>, Seq<char>>(t + "."@ + n),
        stored_address(v) is Ok <==> member(v, "type"@) is Some && member(v, "type"@)->Some_0 is String
            && member(v, "name"@) is Some && member(v, "name"@)->Some_0 is String,
{
    if let Some(JsonV::Array(xs)) = member(state, "resources"@) {
        lemma_stored_gather(xs, xs.len() as int);
        assert(xs.take(xs.len() as int) =~= xs);
    }
}

/// A resource is listed by type and name, with its key in brackets where it
/// has one.
pub proof fn law_listed_by_name(a: AddressV)
    ensures
        a.key is None ==> list_line(a) == a.type_id + "."@ + a.name,
        a.key matches Some(k) ==> list_line(a) == a.type_id + "."@ + a.name + " ["@ + k + "]"@,
{
}

/// The summary of a plan tells its id, how many changes it has, and the
/// changes.
pub proof fn law_plan_summaries(
    id: Seq<u8>,
    created_at: JsonV,
    changes: Seq<JsonV>,
    observation: JsonV,
    verdict: JsonV,
)
    ensures
        ({
            let s = plan_summary_json(id, created_at, changes, observation, verdict);
            &&& member(s, "plan_id"@) == Some(JsonV::String(digest::hex_text(id)))
            &&& member(s, "created_at"@) == Some(created_at)
            &&& member(s, "resource_changes"@) == Some(number(changes.len()))
            &&& member(s, "changes"@) == Some(JsonV::Array(changes))
            &&& member(s, "observation"@) == Some(observation)
            &&& member(s, "verdict"@) == Some(verdict)
        }),
{
    let ps = seq![
        ("plan_id"@, JsonV::String(digest::hex_text(id))),
        ("created_at"@, created_at),
        ("resource_changes"@, number(changes.len())),
        ("changes"@, JsonV::Array(changes)),
        ("observation"@, observation),
        ("verdict"@, verdict),
    ];
    reveal_strlit("plan_id");
    reveal_strlit("created_at");
    reveal_strlit("resource_changes");
    reveal_strlit("changes");
    reveal_strlit("observation");
    reveal_strlit("verdict");
    assert("plan_id"@[0] == 'p' && "created_at"@[0] == 'c' && "resource_changes"@[0] == 'r');
    assert("changes"@[0] == 'c' && "observation"@[0] == 'o' && "verdict"@[0] == 'v');
    assert("created_at"@[1] == 'r' && "changes"@[1] == 'h');
    lemma_distinct_entries(ps);
}

proof fn lemma_distinct_entries(ps: Seq<(Seq<char>, JsonV)>)
    requires
        forall|i: int, j: int|
            0 <= i < j < ps.len() ==> (#[trigger] ps[i]).0 != (#[trigger] ps[j]).0,
    ensures
        forall|i: int|
            0 <= i < ps.len() ==> member(JsonV::Object(collect(ps)), (#[trigger] ps[i]).0) == Some(
                ps[i].1,
            ),
{
    assert forall|i: int| 0 <= i < ps.len() implies member(
        JsonV::Object(collect(ps)),
        (#[trigger] ps[i]).0,
    ) == Some(ps[i].1) by {
        crate::ordmap::law_last_pair_stays(ps, ps[i].0);
        assert forall|j: int| i < j < ps.len() implies (#[trigger] ps[j]).0 != ps[i].0 by {}
    }
}

/// The summary of a run tells its plan, how many changes were applied and how
/// many failed, and when it began and ended.
pub proof fn law_apply_summaries(
    id: Seq<u8>,
    applied: nat,
    failed: nat,
    started_at: JsonV,
    finished_at: JsonV,
)
    ensures
        ({
            let s = apply_summary_json(id, applied, failed, started_at, finished_at);
            &&& member(s, "plan_id"@) == Some(JsonV::String(digest::hex_text(id)))
            &&& member(s, "applied"@) == Some(number(applied))
            &&& member(s, "failed"@) == Some(number(failed))
            &&& member(s, "started_at"@) == Some(started_at)
            &&& member(s, "finished_at"@) == Some(finished_at)
        }),
{
    let ps = seq![
        ("plan_id"@, JsonV::String(digest::hex_text(id))),
        ("applied"@, number(applied)),
        ("failed"@, number(failed)),
        ("started_at"@, started_at),
        ("finished_at"@, finished_at),
    ];
    reveal_strlit("plan_id");
    reveal_strlit("applied");
    reveal_strlit("failed");
    reveal_strlit("started_at");
    reveal_strlit("finished_at");
    assert("plan_id"@[0] == 'p' && "applied"@[0] == 'a' && "failed"@[0] == 'f');
    assert("started_at"@[0] == 's' && "finished_at"@[0] == 'f');
    assert("failed"@[1] == 'a' && "finished_at"@[1] == 'i');
    lemma_distinct_entries(ps);
}

/// Destroying a resource is a deletion of what its first instance holds, and
/// leaves nothing.
pub proof fn law_destruction_deletes(c: ResourceChange, r: StateResource)
    requires
        deletion(c, r),
    ensures
        c.address@ == r.address@,
        c.action == ResourceAction::Delete,
        c.after is None,
        c.before is Some <==> r.instances@.len() > 0,
        c.before matches Some(b) ==> b@ == r.instances@[0].attributes@,
{
}

/// Merging and splitting move every resource once and under its own address.
pub proof fn law_moves_keep_addresses(moves: Seq<ResourceMove>, addresses: Seq<Seq<char>>, i: int)
    requires
        moves_over(moves, addresses),
        0 <= i < addresses.len(),
    ensures
        moves.len() == addresses.len(),
        moves[i].source_address@ == addresses[i],
        moves[i].target_address@ == addresses[i],
{
}

/// Words become texts in a list, in their order.
pub proof fn law_word_lists(ws: Seq<Seq<char>>)
    ensures
        word_list(ws) is Array,
        word_list(ws)->Array_0.len() == ws.len(),
        forall|i: int|
            0 <= i < ws.len() ==> #[trigger] word_list(ws)->Array_0[i] == JsonV::String(ws[i]),
{
}

} // verus!

//! The orchestrator: registered assemblies are ordered by their declared
//! capability dependencies and driven through their lifecycle phases.
use crate::registry::{RegistryWriteHandle, ServiceRegistry, TypeKey};
use std::sync::Arc;
use vstd::prelude::*;

verus! {

/// The ways assembly can fail.
#[derive(Debug)]
pub enum AssemblyError {
    /// An unrecognized runtime mode string; carries the original string.
    InvalidRuntimeMode(String),
    /// A required capability has no registered provider; carries the
    /// requiring assembly's name and a descriptive message.
    MissingDependency { assembly: String, message: String },
    /// The dependency graph contains a cycle; carries a rendering of the
    /// cycle path.
    CyclicDependency(String),
    /// A lifecycle hook's own failure, or an aggregated shutdown report.
    GeneralError(String),
}

impl AssemblyError {
    /// The rendered message of this error.
    pub open spec fn spec_message(self) -> Seq<char> {
        match self {
            AssemblyError::InvalidRuntimeMode(s) => "Invalid runtime mode: "@ + s@,
            AssemblyError::MissingDependency { assembly, message } => "Assembly '"@ + assembly@
                + "' error: "@ + message@,
            AssemblyError::CyclicDependency(s) => "Cyclic dependency detected in assembly graph ("@
                + s@ + ")"@,
            AssemblyError::GeneralError(s) => s@,
        }
    }

    /// Renders the error as a message string.
    pub fn message(&self) -> (r: String)
        ensures
            r@ == self.spec_message(),
    {
        match self {
            AssemblyError::InvalidRuntimeMode(s) => String::from_str(
                "Invalid runtime mode: ",
            ).concat(s.as_str()),
            AssemblyError::MissingDependency { assembly, message } => String::from_str(
                "Assembly '",
            ).concat(assembly.as_str()).concat("' error: ").concat(message.as_str()),
            AssemblyError::CyclicDependency(s) => String::from_str(
                "Cyclic dependency detected in assembly graph (",
            ).concat(s.as_str()).concat(")"),
            AssemblyError::GeneralError(s) => s.clone(),
        }
    }
}

/// The runtime mode an assembler runs its assemblies in, resolved once from
/// a configuration string and propagated read-only into every context.
#[derive(Debug, Clone, Copy, PartialEq, Eq, Structural)]
pub enum RuntimeMode {
    Debug,
    Development,
    Production,
}

/// The scalar value of a character with an ASCII capital letter folded to
/// its lower-case form.
pub open spec fn fold_ascii(c: char) -> int {
    if 65 <= c as int <= 90 {
        c as int + 32
    } else {
        c as int
    }
}

/// Whether two character sequences are equal up to ASCII case.
pub open spec fn eq_ignore_ascii_case(a: Seq<char>, b: Seq<char>) -> bool {
    a.len() == b.len() && forall|i: int| 0 <= i < a.len() ==> fold_ascii(a[i]) == fold_ascii(b[i])
}

/// The runtime mode named by a string, compared without regard to ASCII
/// case; `None` for an unrecognized string.
pub open spec fn spec_parse_mode(s: Seq<char>) -> Option<RuntimeMode> {
    if eq_ignore_ascii_case(s, "production"@) || eq_ignore_ascii_case(s, "prod"@) {
        Some(RuntimeMode::Production)
    } else if eq_ignore_ascii_case(s, "development"@) || eq_ignore_ascii_case(s, "dev"@) {
        Some(RuntimeMode::Development)
    } else if eq_ignore_ascii_case(s, "debug"@) {
        Some(RuntimeMode::Debug)
    } else {
        None
    }
}

/// Compares two strings for equality up to ASCII case.
fn str_eq_ignore_case(a: &str, b: &str) -> (r: bool)
    ensures
        r == eq_ignore_ascii_case(a@, b@),
{
    let la = a.unicode_len();
    let lb = b.unicode_len();
    if la != lb {
        return false;
    }
    for i in 0..la
        invariant
            la == a@.len(),
            la == b@.len(),
            forall|m: int| 0 <= m < i ==> fold_ascii(a@[m]) == fold_ascii(b@[m]),
    {
        let ca = a.get_char(i) as u32;
        let cb = b.get_char(i) as u32;
        let fa = if 65 <= ca && ca <= 90 {
            ca + 32
        } else {
            ca
        };
        let fb = if 65 <= cb && cb <= 90 {
            cb + 32
        } else {
            cb
        };
        if fa != fb {
            return false;
        }
    }
    true
}

impl RuntimeMode {
    /// A constructed mode is always one of the three valid variants.
    pub fn is_valid(&self) -> (r: bool)
        ensures
            r,
    {
        true
    }

    /// Parses a runtime mode from a configuration string, without regard to
    /// ASCII case. Every unrecognized string is rejected with an
    /// invalid-mode error carrying that string.
    pub fn parse(mode: &str) -> (r: Result<RuntimeMode, AssemblyError>)
        ensures
            match r {
                Ok(m) => spec_parse_mode(mode@) == Some(m),
                Err(e) => spec_parse_mode(mode@) is None && match e {
                    AssemblyError::InvalidRuntimeMode(s) => s@ == mode@,
                    _ => false,
                },
            },
    {
        if str_eq_ignore_case(mode, "production") || str_eq_ignore_case(mode, "prod") {
            Ok(RuntimeMode::Production)
        } else if str_eq_ignore_case(mode, "development") || str_eq_ignore_case(mode, "dev") {
            Ok(RuntimeMode::Development)
        } else if str_eq_ignore_case(mode, "debug") {
            Ok(RuntimeMode::Debug)
        } else {
            Err(AssemblyError::InvalidRuntimeMode(mode.to_owned()))
        }
    }

    /// The lower-case name of the mode.
    pub fn label(&self) -> (r: &'static str)
        ensures
            (*self == RuntimeMode::Debug ==> r@ == "debug"@) && (*self == RuntimeMode::Development
                ==> r@ == "development"@) && (*self == RuntimeMode::Production ==> r@
                == "production"@),
    {
        match self {
            RuntimeMode::Debug => "debug",
            RuntimeMode::Development => "development",
            RuntimeMode::Production => "production",
        }
    }
}

/// The logging collaborator: four severity levels, each taking a message and
/// never failing. The sink itself is outside this crate; implementors supply
/// it.
pub trait LogMonitor {
    fn debug(&self, message: &str);

    fn info(&self, message: &str);

    fn warn(&self, message: &str);

    fn error(&self, message: &str);
}

/// A monitor that discards every message; for tests or disabled logging.
pub struct NoopMonitor;

impl LogMonitor for NoopMonitor {
    fn debug(&self, _message: &str) {
    }

    fn info(&self, _message: &str) {
    }

    fn warn(&self, _message: &str) {
    }

    fn error(&self, _message: &str) {
    }
}

/// Context handed to the `init` and `prepare` phases: a write-capable handle
/// onto the assembler's registry, the logging collaborator, and the resolved
/// runtime mode.
#[verifier::reject_recursive_types(V)]
pub struct MutableAssemblyContext<V, M> {
    pub registry: RegistryWriteHandle<V>,
    pub log_monitor: Arc<M>,
    pub mode: RuntimeMode,
}

/// Context handed to the `start` phase: a read-side view of the assembler's
/// registry, the logging collaborator, and the resolved runtime mode.
#[verifier::reject_recursive_types(V)]
pub struct AssemblyContext<V, M> {
    pub registry: ServiceRegistry<V>,
    pub log_monitor: Arc<M>,
    pub mode: RuntimeMode,
}

impl<V, M> Clone for AssemblyContext<V, M> {
    /// The clone aliases the same registry store and monitor.
    fn clone(&self) -> (r: AssemblyContext<V, M>)
        ensures
            r == *self,
    {
        AssemblyContext {
            registry: self.registry.share(),
            log_monitor: crate::registry::arc_clone(&self.log_monitor),
            mode: self.mode,
        }
    }
}

/// The metadata of an assembly: its name and the capabilities it declares.
pub trait ServiceAssemblyBase {
    fn name(&self) -> &str;

    /// The capabilities this assembly publishes, in declaration order.
    fn provides(&self) -> (r: Vec<TypeKey>) {
        Vec::new()
    }

    /// The capabilities this assembly consumes, in declaration order.
    fn required(&self) -> (r: Vec<TypeKey>) {
        Vec::new()
    }
}

/// A subsystem that contributes services to a runtime. All hooks but `init`
/// default to doing nothing.
pub trait ServiceAssembly<V, M: LogMonitor>: ServiceAssemblyBase {
    fn init(&self, context: &MutableAssemblyContext<V, M>) -> Result<(), AssemblyError>;

    fn prepare(&self, _context: &MutableAssemblyContext<V, M>) -> (r: Result<
        (),
        AssemblyError,
    >) {
        Ok(())
    }

    fn start(&self, _context: &AssemblyContext<V, M>) -> (r: Result<(), AssemblyError>) {
        Ok(())
    }

    fn finalize(&self) -> (r: Result<(), AssemblyError>) {
        Ok(())
    }

    fn shutdown(&self) -> (r: Result<(), AssemblyError>) {
        Ok(())
    }
}

/// The views of a list of capability keys.
pub open spec fn key_views(s: Seq<TypeKey>) -> Seq<Seq<char>> {
    s.map_values(|k: TypeKey| k@)
}

/// An assembly's declared metadata, written out explicitly: a name and the
/// provided and required capability lists in declaration order. Empty lists
/// are valid. An assembly author can keep one of these and return its parts
/// from the metadata accessors.
pub struct AssemblyInfo {
    name: String,
    provided: Vec<TypeKey>,
    needed: Vec<TypeKey>,
}

impl AssemblyInfo {
    /// The declared name.
    pub closed spec fn spec_name(self) -> Seq<char> {
        self.name@
    }

    /// The declared provided capabilities, in order.
    pub closed spec fn spec_provides(self) -> Seq<Seq<char>> {
        key_views(self.provided@)
    }

    /// The declared required capabilities, in order.
    pub closed spec fn spec_required(self) -> Seq<Seq<char>> {
        key_views(self.needed@)
    }

    /// Starts a declaration with the given name and no capabilities.
    pub fn new(name: &str) -> (r: AssemblyInfo)
        ensures
            r.spec_name() == name@,
            r.spec_provides().len() == 0,
            r.spec_required().len() == 0,
    {
        let r = AssemblyInfo { name: name.to_owned(), provided: Vec::new(), needed: Vec::new() };
        proof {
            assert(r.spec_provides() =~= Seq::<Seq<char>>::empty());
            assert(r.spec_required() =~= Seq::<Seq<char>>::empty());
        }
        r
    }

    /// Declares one more provided capability, after those declared so far.
    pub fn with_provided(self, key: TypeKey) -> (r: AssemblyInfo)
        ensures
            r.spec_name() == self.spec_name(),
            r.spec_provides() == self.spec_provides().push(key@),
            r.spec_required() == self.spec_required(),
    {
        let ghost pre = self;
        let mut provided = self.provided;
        provided.push(key);
        let r = AssemblyInfo { name: self.name, provided, needed: self.needed };
        proof {
            assert(r.spec_provides() =~= pre.spec_provides().push(key@));
        }
        r
    }

    /// Declares one more required capability, after those declared so far.
    pub fn with_required(self, key: TypeKey) -> (r: AssemblyInfo)
        ensures
            r.spec_name() == self.spec_name(),
            r.spec_provides() == self.spec_provides(),
            r.spec_required() == self.spec_required().push(key@),
    {
        let ghost pre = self;
        let mut needed = self.needed;
        needed.push(key);
        let r = AssemblyInfo { name: self.name, provided: self.provided, needed };
        proof {
            assert(r.spec_required() =~= pre.spec_required().push(key@));
        }
        r
    }

    /// Builds a declaration from a name and the two capability lists.
    pub fn from_parts(name: String, provided: Vec<TypeKey>, needed: Vec<TypeKey>) -> (r:
        AssemblyInfo)
        ensures
            r.spec_name() == name@,
            r.spec_provides() == key_views(provided@),
            r.spec_required() == key_views(needed@),
    {
        AssemblyInfo { name, provided, needed }
    }

    /// The declared name.
    pub fn name(&self) -> (r: &str)
        ensures
            r@ == self.spec_name(),
    {
        self.name.as_str()
    }

    /// The provided capabilities, in declaration order.
    pub fn provides(&self) -> (r: Vec<TypeKey>)
        ensures
            key_views(r@) == self.spec_provides(),
    {
        clone_keys(&self.provided)
    }

    /// The required capabilities, in declaration order.
    pub fn required(&self) -> (r: Vec<TypeKey>)
        ensures
            key_views(r@) == self.spec_required(),
    {
        clone_keys(&self.needed)
    }
}

/// The declared names of a list of assemblies, in declaration order.
pub open spec fn decl_names(decls: Seq<AssemblyInfo>) -> Seq<Seq<char>> {
    decls.map_values(|d: AssemblyInfo| d.spec_name())
}

/// The declared names with repeats dropped, keeping first occurrences in
/// order: the vertices of the dependency graph.
pub open spec fn distinct_names(decls: Seq<AssemblyInfo>) -> Seq<Seq<char>>
    decreases decls.len(),
{
    if decls.len() == 0 {
        Seq::empty()
    } else {
        let prev = distinct_names(decls.drop_last());
        if prev.contains(decls.last().spec_name()) {
            prev
        } else {
            prev.push(decls.last().spec_name())
        }
    }
}

/// Folds one assembly's provided capabilities into a provider map.
pub open spec fn keys_to_provider(
    m: Map<Seq<char>, Seq<char>>,
    keys: Seq<Seq<char>>,
    name: Seq<char>,
) -> Map<Seq<char>, Seq<char>>
    decreases keys.len(),
{
    if keys.len() == 0 {
        m
    } else {
        keys_to_provider(m, keys.drop_last(), name).insert(keys.last(), name)
    }
}

/// Maps each provided capability to the name of the assembly providing it;
/// a later declaration of the same capability silently overrides an earlier
/// one.
pub open spec fn provider_map(decls: Seq<AssemblyInfo>) -> Map<Seq<char>, Seq<char>>
    decreases decls.len(),
{
    if decls.len() == 0 {
        Map::empty()
    } else {
        keys_to_provider(
            provider_map(decls.drop_last()),
            decls.last().spec_provides(),
            decls.last().spec_name(),
        )
    }
}

/// The first of these required capabilities with no provider, if any.
pub open spec fn first_missing_key(
    keys: Seq<Seq<char>>,
    pm: Map<Seq<char>, Seq<char>>,
) -> Option<Seq<char>>
    decreases keys.len(),
{
    if keys.len() == 0 {
        None
    } else if !pm.dom().contains(keys.first()) {
        Some(keys.first())
    } else {
        first_missing_key(keys.drop_first(), pm)
    }
}

/// The first assembly (in declaration order) with a required capability that
/// has no provider, together with the first such capability; `None` when
/// every requirement is provided.
pub open spec fn first_failure(
    decls: Seq<AssemblyInfo>,
    pm: Map<Seq<char>, Seq<char>>,
) -> Option<(Seq<char>, Seq<char>)>
    decreases decls.len(),
{
    if decls.len() == 0 {
        None
    } else {
        match first_missing_key(decls.first().spec_required(), pm) {
            Some(k) => Some((decls.first().spec_name(), k)),
            None => first_failure(decls.drop_first(), pm),
        }
    }
}

/// The dependency relation the declarations induce: the assembly named `u`
/// requires a capability provided by the assembly named `v`.
pub open spec fn requires_edge(decls: Seq<AssemblyInfo>, u: Seq<char>, v: Seq<char>) -> bool {
    exists|i: int, k: int|
        #![trigger decls[i].spec_required()[k]]
        0 <= i < decls.len() && 0 <= k < decls[i].spec_required().len() && decls[i].spec_name()
            == u && provider_map(decls).dom().contains(decls[i].spec_required()[k])
            && provider_map(decls)[decls[i].spec_required()[k]] == v
}

/// Like `requires_edge`, over the requirements strictly before position
/// `(i, k)` in declaration order.
pub open spec fn requires_edge_prefix(
    decls: Seq<AssemblyInfo>,
    i: int,
    k: int,
    u: Seq<char>,
    v: Seq<char>,
) -> bool {
    exists|i2: int, k2: int|
        #![trigger decls[i2].spec_required()[k2]]
        0 <= i2 < decls.len() && 0 <= k2 < decls[i2].spec_required().len() && (i2 < i || (i2 == i
            && k2 < k)) && decls[i2].spec_name() == u && provider_map(decls).dom().contains(
            decls[i2].spec_required()[k2],
        ) && provider_map(decls)[decls[i2].spec_required()[k2]] == v
}

/// A closed walk along the dependency relation: a dependency cycle.
pub open spec fn decl_cycle(decls: Seq<AssemblyInfo>, path: Seq<Seq<char>>) -> bool {
    &&& path.len() >= 2
    &&& path.first() == path.last()
    &&& forall|m: int| 0 <= m < path.len() - 1 ==> #[trigger] requires_edge(decls, path[m], path[m + 1])
}

/// Whether the declarations contain a dependency cycle.
pub open spec fn decls_cyclic(decls: Seq<AssemblyInfo>) -> bool {
    exists|path: Seq<Seq<char>>| decl_cycle(decls, path)
}

/// The names picked by an index order.
pub open spec fn planned_names(decls: Seq<AssemblyInfo>, ord: Seq<usize>) -> Seq<Seq<char>> {
    ord.map_values(|i: usize| decls[i as int].spec_name())
}

/// The items of a cycle path, each in quotes, separated by commas.
pub open spec fn render_items(items: Seq<Seq<char>>) -> Seq<char>
    decreases items.len(),
{
    if items.len() == 0 {
        Seq::empty()
    } else if items.len() == 1 {
        "\""@ + items[0] + "\""@
    } else {
        render_items(items.drop_last()) + ", "@ + "\""@ + items.last() + "\""@
    }
}

/// A cycle path rendered as a quoted, bracketed list.
pub open spec fn render_quoted_list(items: Seq<Seq<char>>) -> Seq<char> {
    "["@ + render_items(items) + "]"@
}

/// Renders a cycle path as a quoted, bracketed list.
fn render_path(items: &Vec<String>) -> (r: String)
    ensures
        r@ == render_quoted_list(crate::text::string_views(items@)),
{
    let ghost views = crate::text::string_views(items@);
    let n = items.len();
    let mut out = String::from_str("[");
    for i in 0..n
        invariant
            n == items@.len(),
            views == crate::text::string_views(items@),
            out@ == "["@ + render_items(views.take(i as int)),
    {
        if i > 0 {
            out.append(", ");
        }
        out.append("\"");
        out.append(items[i].as_str());
        out.append("\"");
        proof {
            assert(views.take(i + 1).drop_last() =~= views.take(i as int));
            assert(views.take(i + 1).last() == views[i as int]);
            if i == 0 {
                assert(render_items(views.take(1)) =~= "\""@ + views[0] + "\""@);
                assert(out@ =~= "["@ + render_items(views.take(i + 1)));
            } else {
                assert(render_items(views.take(i + 1)) == render_items(views.take(i as int))
                    + ", "@ + "\""@ + views[i as int] + "\""@);
                assert(out@ =~= "["@ + render_items(views.take(i + 1)));
            }
        }
    }
    out.append("]");
    proof {
        assert(views.take(n as int) =~= views);
        assert(out@ =~= render_quoted_list(views));
    }
    out
}

/// Whether `i` is the first declaration carrying its name.
pub open spec fn first_index_of_name(decls: Seq<AssemblyInfo>, i: int) -> bool {
    forall|j: int| 0 <= j < i ==> (#[trigger] decls[j]).spec_name() != decls[i].spec_name()
}

/// How the result of `plan_order` relates to the declarations it was
/// computed from. On success the order holds, for each distinct assembly
/// name, the first declaration carrying it, every name exactly once, with
/// every assembly placed after every assembly it requires. A missing
/// provider is reported for the first requirement (in declaration order)
/// without one; a dependency cycle is reported when every requirement has a
/// provider but the dependency relation has a closed walk.
pub open spec fn plan_post(decls: Seq<AssemblyInfo>, r: Result<Vec<usize>, AssemblyError>) -> bool {
    let pm = provider_map(decls);
    match r {
        Ok(ord) => {
            let names = planned_names(decls, ord@);
            &&& first_failure(decls, pm) is None
            &&& !decls_cyclic(decls)
            &&& names.no_duplicates()
            &&& names.to_set() == decl_names(decls).to_set()
            &&& forall|x: int| 0 <= x < ord@.len() ==> (#[trigger] ord@[x]) < decls.len()
            &&& forall|x: int|
                0 <= x < ord@.len() ==> #[trigger] first_index_of_name(decls, ord@[x] as int)
            &&& forall|p: int, q: int|
                0 <= p < names.len() && 0 <= q < names.len() && #[trigger] requires_edge(
                    decls,
                    names[p],
                    names[q],
                ) ==> q < p
        },
        Err(e) => match e {
            AssemblyError::MissingDependency { assembly, message } => match first_failure(
                decls,
                pm,
            ) {
                Some(f) => assembly@ == f.0 && message@
                    == "Required assembly not found for service: "@ + f.1,
                None => false,
            },
            AssemblyError::CyclicDependency(info) => {
                &&& first_failure(decls, pm) is None
                &&& decls_cyclic(decls)
                &&& (info@ == "unknown cycle"@ || exists|path: Seq<Seq<char>>|
                    #[trigger] decl_cycle(decls, path) && info@ == "Cycle path: "@
                        + render_quoted_list(path))
            },
            _ => false,
        },
    }
}

/// The names a provider map sends capabilities to are declared names.
proof fn lemma_keys_to_provider_values(
    m: Map<Seq<char>, Seq<char>>,
    keys: Seq<Seq<char>>,
    name: Seq<char>,
    k: Seq<char>,
)
    requires
        keys_to_provider(m, keys, name).dom().contains(k),
    ensures
        (m.dom().contains(k) && keys_to_provider(m, keys, name)[k] == m[k]) || keys_to_provider(
            m,
            keys,
            name,
        )[k] == name,
    decreases keys.len(),
{
    if keys.len() > 0 && k != keys.last() {
        lemma_keys_to_provider_values(m, keys.drop_last(), name, k);
    }
}

/// Every value of the provider map is the name of some declaration.
proof fn lemma_provider_values(decls: Seq<AssemblyInfo>, k: Seq<char>)
    requires
        provider_map(decls).dom().contains(k),
    ensures
        decl_names(decls).contains(provider_map(decls)[k]),
    decreases decls.len(),
{
    if decls.len() > 0 {
        let inner = provider_map(decls.drop_last());
        lemma_keys_to_provider_values(
            inner,
            decls.last().spec_provides(),
            decls.last().spec_name(),
            k,
        );
        if provider_map(decls)[k] == decls.last().spec_name() {
            assert(decl_names(decls)[decls.len() - 1] == decls.last().spec_name());
        } else {
            lemma_provider_values(decls.drop_last(), k);
            let j = choose|j: int|
                0 <= j < decl_names(decls.drop_last()).len() && decl_names(decls.drop_last())[j]
                    == inner[k];
            assert(decl_names(decls)[j] == inner[k]);
        }
    }
}

/// The distinct names list holds exactly the declared names.
proof fn lemma_distinct_names_set(decls: Seq<AssemblyInfo>)
    ensures
        forall|x: Seq<char>|
            #[trigger] distinct_names(decls).contains(x) <==> decl_names(decls).contains(x),
    decreases decls.len(),
{
    if decls.len() > 0 {
        lemma_distinct_names_set(decls.drop_last());
        assert forall|x: Seq<char>| #[trigger] distinct_names(decls).contains(x) implies decl_names(
            decls,
        ).contains(x) by {
            if distinct_names(decls.drop_last()).contains(x) {
                assert(decl_names(decls.drop_last()).contains(x));
                let j = choose|j: int|
                    0 <= j < decl_names(decls.drop_last()).len() && decl_names(
                        decls.drop_last(),
                    )[j] == x;
                assert(decl_names(decls)[j] == x);
            } else {
                assert(x == decls.last().spec_name());
                assert(decl_names(decls)[decls.len() - 1] == x);
            }
        }
        assert forall|x: Seq<char>| decl_names(decls).contains(x) implies distinct_names(
            decls,
        ).contains(x) by {
            let j = choose|j: int| 0 <= j < decl_names(decls).len() && decl_names(decls)[j] == x;
            if j < decls.len() - 1 {
                assert(decl_names(decls.drop_last())[j] == x);
                assert(distinct_names(decls.drop_last()).contains(x));
                if !distinct_names(decls).contains(x) {
                    let prev = distinct_names(decls.drop_last());
                    let w = choose|w: int| 0 <= w < prev.len() && prev[w] == x;
                    if prev.contains(decls.last().spec_name()) {
                        assert(distinct_names(decls)[w] == x);
                    } else {
                        assert(distinct_names(decls)[w] == x);
                    }
                    assert(false);
                }
            } else {
                let prev = distinct_names(decls.drop_last());
                if prev.contains(x) {
                    let w = choose|w: int| 0 <= w < prev.len() && prev[w] == x;
                    assert(distinct_names(decls)[w] == x);
                } else {
                    assert(distinct_names(decls).last() == x);
                }
            }
        }
    }
}

/// A requirement list whose prefix is fully provided fails first wherever
/// its remainder fails first.
proof fn lemma_first_missing_skip(keys: Seq<Seq<char>>, pm: Map<Seq<char>, Seq<char>>, k: int)
    requires
        0 <= k <= keys.len(),
        forall|m: int| 0 <= m < k ==> pm.dom().contains(#[trigger] keys[m]),
    ensures
        first_missing_key(keys, pm) == first_missing_key(keys.skip(k), pm),
    decreases k,
{
    if k > 0 {
        lemma_first_missing_skip(keys.drop_first(), pm, k - 1);
        assert(keys.drop_first().skip(k - 1) =~= keys.skip(k));
    } else {
        assert(keys.skip(0) =~= keys);
    }
}

/// A declaration list whose prefix is fully provided fails first wherever
/// its remainder fails first.
proof fn lemma_first_failure_skip(
    decls: Seq<AssemblyInfo>,
    pm: Map<Seq<char>, Seq<char>>,
    i: int,
)
    requires
        0 <= i <= decls.len(),
        forall|j: int|
            0 <= j < i ==> first_missing_key((#[trigger] decls[j]).spec_required(), pm) is None,
    ensures
        first_failure(decls, pm) == first_failure(decls.skip(i), pm),
    decreases i,
{
    if i > 0 {
        lemma_first_failure_skip(decls.drop_first(), pm, i - 1);
        assert(decls.drop_first().skip(i - 1) =~= decls.skip(i));
        assert(decls.first() == decls[0]);
    } else {
        assert(decls.skip(0) =~= decls);
    }
}

/// A graph whose edges are exactly the declared dependency relation has a
/// cycle exactly when the declarations do.
proof fn lemma_graph_cycles_match(g: crate::dag::Graph<String>, decls: Seq<AssemblyInfo>)
    requires
        forall|u: Seq<char>, v: Seq<char>|
            #[trigger] g.has_edge(u, v) <==> requires_edge(decls, u, v),
    ensures
        g.is_cyclic() <==> decls_cyclic(decls),
{
    if g.is_cyclic() {
        let path = choose|path: Seq<Seq<char>>| g.is_cycle(path);
        assert forall|m: int| 0 <= m < path.len() - 1 implies #[trigger] requires_edge(
            decls,
            path[m],
            path[m + 1],
        ) by {
            assert(g.has_edge(path[m], path[m + 1]));
        }
        assert(decl_cycle(decls, path));
    }
    if decls_cyclic(decls) {
        let path = choose|path: Seq<Seq<char>>| decl_cycle(decls, path);
        assert forall|m: int| 0 <= m < path.len() - 1 implies #[trigger] g.has_edge(
            path[m],
            path[m + 1],
        ) by {
            assert(requires_edge(decls, path[m], path[m + 1]));
        }
        assert(g.is_cycle(path));
    }
}

/// Finds the first declaration with the given name.
fn find_decl(decls: &Vec<AssemblyInfo>, name: &str) -> (r: Option<usize>)
    ensures
        match r {
            Some(i) => i < decls@.len() && decls@[i as int].spec_name() == name@
                && first_index_of_name(decls@, i as int),
            None => forall|j: int|
                0 <= j < decls@.len() ==> (#[trigger] decls@[j]).spec_name() != name@,
        },
{
    let n = decls.len();
    for i in 0..n
        invariant
            n == decls@.len(),
            forall|j: int| 0 <= j < i ==> (#[trigger] decls@[j]).spec_name() != name@,
    {
        if decls[i].name().eq(name) {
            return Some(i);
        }
    }
    None
}

/// Computes the execution order for a list of assembly declarations:
/// dependencies first, each distinct name once (the first declaration with
/// that name), failing on an unprovided requirement or a dependency cycle.
pub fn plan_order(decls: &Vec<AssemblyInfo>) -> (r: Result<Vec<usize>, AssemblyError>)
    ensures
        plan_post(decls@, r),
{
    let n = decls.len();
    let mut graph: crate::dag::Graph<String> = crate::dag::Graph::new();
    let mut providers: crate::registry::ServiceStore<String> =
        crate::registry::ServiceStore::new();
    proof {
        assert(distinct_names(decls@.take(0)) =~= Seq::<Seq<char>>::empty());
        assert(graph.ids() =~= Seq::<Seq<char>>::empty());
        assert(providers.as_map().map_values(|s: String| s@) =~= provider_map(decls@.take(0)));
    }
    for i in 0..n
        invariant
            graph.wf(),
            providers.wf(),
            n == decls@.len(),
            graph.ids() == distinct_names(decls@.take(i as int)),
            forall|x: int|
                0 <= x < graph.vertices@.len() ==> (#[trigger] graph.edge_list(x)).len() == 0,
            providers.as_map().map_values(|s: String| s@) == provider_map(decls@.take(i as int)),
    {
        let d = &decls[i];
        let ghost g0 = graph;
        graph.add_vertex(d.name().to_owned(), d.name().to_owned());
        proof {
            assert(decls@.take(i + 1).drop_last() =~= decls@.take(i as int));
            assert(decls@.take(i + 1).last() == decls@[i as int]);
            if g0.has_vertex(decls@[i as int].spec_name()) {
                assert(graph == g0);
                assert(distinct_names(decls@.take(i + 1)) == distinct_names(decls@.take(i as int)));
            } else {
                assert(graph.ids() == g0.ids().push(decls@[i as int].spec_name()));
                assert(distinct_names(decls@.take(i + 1)) == distinct_names(
                    decls@.take(i as int),
                ).push(decls@[i as int].spec_name()));
                assert forall|x: int| 0 <= x < graph.vertices@.len() implies (
                #[trigger] graph.edge_list(x)).len() == 0 by {
                    if x < g0.vertices@.len() {
                        assert(graph.vertices@[x] == g0.vertices@[x]);
                        assert(graph.edge_list(x) =~= g0.edge_list(x));
                    } else {
                        assert(graph.edge_list(x) =~= Seq::<Seq<char>>::empty());
                    }
                }
            }
        }
        let prov = d.provides();
        let np = prov.len();
        proof {
            assert(decls@[i as int].spec_provides().take(0) =~= Seq::<Seq<char>>::empty());
        }
        for k in 0..np
            invariant
                providers.wf(),
                n == decls@.len(),
                i < n,
                *d == decls@[i as int],
                key_views(prov@) == decls@[i as int].spec_provides(),
                np == prov@.len(),
                providers.as_map().map_values(|s: String| s@) == keys_to_provider(
                    provider_map(decls@.take(i as int)),
                    decls@[i as int].spec_provides().take(k as int),
                    decls@[i as int].spec_name(),
                ),
        {
            let ghost m0 = providers.as_map();
            let owner_name = d.name().to_owned();
            let ghost ownerv = owner_name@;
            providers.insert(&prov[k], owner_name);
            proof {
                let gk = k as int;
                let keyv = decls@[i as int].spec_provides()[gk];
                assert(prov@[gk]@ == keyv);
                assert(ownerv == decls@[i as int].spec_name());
                assert(decls@[i as int].spec_provides().take(gk + 1).drop_last() =~= decls@[
                    i as int].spec_provides().take(gk));
                assert(decls@[i as int].spec_provides().take(gk + 1).last() == keyv);
                assert(providers.as_map().map_values(|s: String| s@) =~= m0.map_values(
                    |s: String| s@,
                ).insert(keyv, ownerv));
            }
        }
        proof {
            assert(decls@[i as int].spec_provides().take(np as int) =~= decls@[
                i as int].spec_provides());
        }
    }
    proof {
        assert(decls@.take(n as int) =~= decls@);
    }
    let ghost pm = provider_map(decls@);
    proof {
        assert(decls@.skip(0) =~= decls@);
        assert forall|u: Seq<char>, v: Seq<char>| #[trigger] graph.has_edge(u, v)
            <==> requires_edge_prefix(decls@, 0, 0, u, v) by {
            if graph.has_edge(u, v) {
                let (a, b) = choose|a: int, b: int|
                    #[trigger] graph.edge_idx(a, b) && graph.ids()[a] == u && graph.ids()[b] == v;
                assert(graph.edge_list(a).len() == 0);
            }
        }
    }
    for i in 0..n
        invariant
            graph.wf(),
            providers.wf(),
            n == decls@.len(),
            pm == provider_map(decls@),
            graph.ids() == distinct_names(decls@),
            providers.as_map().map_values(|s: String| s@) == pm,
            forall|j: int|
                0 <= j < i ==> first_missing_key(
                    (#[trigger] decls@[j]).spec_required(),
                    pm,
                ) is None,
            forall|u: Seq<char>, v: Seq<char>|
                #[trigger] graph.has_edge(u, v) <==> requires_edge_prefix(
                    decls@,
                    i as int,
                    0,
                    u,
                    v,
                ),
    {
        let d = &decls[i];
        let req = d.required();
        let nr = req.len();
        for k in 0..nr
            invariant
                graph.wf(),
                providers.wf(),
                n == decls@.len(),
                i < n,
                *d == decls@[i as int],
                pm == provider_map(decls@),
                graph.ids() == distinct_names(decls@),
                providers.as_map().map_values(|s: String| s@) == pm,
                key_views(req@) == decls@[i as int].spec_required(),
                nr == req@.len(),
                forall|j: int|
                    0 <= j < i ==> first_missing_key(
                        (#[trigger] decls@[j]).spec_required(),
                        pm,
                    ) is None,
                forall|m: int|
                    0 <= m < k ==> pm.dom().contains(
                        #[trigger] decls@[i as int].spec_required()[m],
                    ),
                forall|u: Seq<char>, v: Seq<char>|
                    #[trigger] graph.has_edge(u, v) <==> requires_edge_prefix(
                        decls@,
                        i as int,
                        k as int,
                        u,
                        v,
                    ),
        {
            let key = &req[k];
            let ghost gi = i as int;
            let ghost gk = k as int;
            let ghost keyv = decls@[gi].spec_required()[gk];
            proof {
                assert(req@[gk]@ == keyv);
            }
            let provider_found = providers.get(key);
            match provider_found {
                Some(provider_name) => {
                    let pname = provider_name.clone();
                    proof {
                        assert(providers.as_map().dom().contains(keyv));
                        assert(providers.as_map().map_values(|s: String| s@)[keyv] == pname@);
                        assert(pm.dom().contains(keyv) && pm[keyv] == pname@);
                    }
                    let ghost g0 = graph;
                    graph.add_edge(d.name(), pname.as_str());
                    proof {
                        let from = decls@[gi].spec_name();
                        let to = pm[keyv];
                        // both endpoints are declared names, so both vertices exist
                        lemma_distinct_names_set(decls@);
                        assert(decl_names(decls@)[gi] == from);
                        assert(decl_names(decls@).contains(from));
                        assert(g0.has_vertex(from));
                        lemma_provider_values(decls@, keyv);
                        assert(g0.has_vertex(to));
                        assert forall|u: Seq<char>, v: Seq<char>| #[trigger] graph.has_edge(u, v)
                            <==> requires_edge_prefix(decls@, gi, gk + 1, u, v) by {
                            crate::dag::Graph::lemma_add_edge_has_edge(g0, graph, from, to, u, v);
                            if graph.has_edge(u, v) {
                                if g0.has_edge(u, v) {
                                    let (i2, k2) = choose|i2: int, k2: int|
                                        #![trigger decls@[i2].spec_required()[k2]]
                                        0 <= i2 < decls@.len() && 0 <= k2 < decls@[
                                            i2].spec_required().len() && (i2 < gi || (i2 == gi
                                            && k2 < gk)) && decls@[i2].spec_name() == u
                                            && provider_map(decls@).dom().contains(
                                            decls@[i2].spec_required()[k2],
                                        ) && provider_map(decls@)[decls@[i2].spec_required()[k2]]
                                            == v;
                                    assert(requires_edge_prefix(decls@, gi, gk + 1, u, v));
                                } else {
                                    assert(u == from && v == to);
                                    assert(decls@[gi].spec_required()[gk] == keyv);
                                    assert(requires_edge_prefix(decls@, gi, gk + 1, u, v));
                                }
                            }
                            if requires_edge_prefix(decls@, gi, gk + 1, u, v) {
                                let (i2, k2) = choose|i2: int, k2: int|
                                    #![trigger decls@[i2].spec_required()[k2]]
                                    0 <= i2 < decls@.len() && 0 <= k2 < decls@[
                                        i2].spec_required().len() && (i2 < gi || (i2 == gi && k2
                                        < gk + 1)) && decls@[i2].spec_name() == u && provider_map(
                                        decls@,
                                    ).dom().contains(decls@[i2].spec_required()[k2])
                                        && provider_map(decls@)[decls@[i2].spec_required()[k2]]
                                        == v;
                                if i2 == gi && k2 == gk {
                                    assert(u == from && v == to);
                                } else {
                                    assert(requires_edge_prefix(decls@, gi, gk, u, v));
                                    assert(g0.has_edge(u, v));
                                }
                            }
                        }
                        // the requirement just handled has a provider
                        assert(pm.dom().contains(decls@[gi].spec_required()[gk]));
                    }
                },
                None => {
                    proof {
                        assert(!pm.dom().contains(keyv)) by {
                            if pm.dom().contains(keyv) {
                                assert(providers.as_map().map_values(|s: String| s@).dom().contains(
                                    keyv,
                                ));
                            }
                        }
                        lemma_first_missing_skip(decls@[gi].spec_required(), pm, gk);
                        assert(decls@[gi].spec_required().skip(gk).first() == keyv);
                        assert(first_missing_key(decls@[gi].spec_required(), pm) == Some(keyv));
                        lemma_first_failure_skip(decls@, pm, gi);
                        assert(decls@.skip(gi).first() == decls@[gi]);
                        assert(first_failure(decls@, pm) == Some(
                            (decls@[gi].spec_name(), keyv),
                        ));
                    }
                    let msg = String::from_str("Required assembly not found for service: ").concat(
                        key.label(),
                    );
                    return Err(
                        AssemblyError::MissingDependency {
                            assembly: d.name().to_owned(),
                            message: msg,
                        },
                    );
                },
            }
        }
        proof {
            let gi = i as int;
            lemma_first_missing_skip(decls@[gi].spec_required(), pm, nr as int);
            assert(decls@[gi].spec_required().skip(nr as int) =~= Seq::<Seq<char>>::empty());
            assert(first_missing_key(decls@[gi].spec_required(), pm) is None);
            assert forall|u: Seq<char>, v: Seq<char>| #[trigger] graph.has_edge(u, v)
                <==> requires_edge_prefix(decls@, gi + 1, 0, u, v) by {
                if graph.has_edge(u, v) {
                    let (i2, k2) = choose|i2: int, k2: int|
                        #![trigger decls@[i2].spec_required()[k2]]
                        0 <= i2 < decls@.len() && 0 <= k2 < decls@[i2].spec_required().len() && (i2
                            < gi || (i2 == gi && k2 < nr)) && decls@[i2].spec_name() == u
                            && provider_map(decls@).dom().contains(decls@[i2].spec_required()[k2])
                            && provider_map(decls@)[decls@[i2].spec_required()[k2]] == v;
                    assert(requires_edge_prefix(decls@, gi + 1, 0, u, v));
                }
                if requires_edge_prefix(decls@, gi + 1, 0, u, v) {
                    let (i2, k2) = choose|i2: int, k2: int|
                        #![trigger decls@[i2].spec_required()[k2]]
                        0 <= i2 < decls@.len() && 0 <= k2 < decls@[i2].spec_required().len() && (i2
                            < gi + 1) && decls@[i2].spec_name() == u && provider_map(
                            decls@,
                        ).dom().contains(decls@[i2].spec_required()[k2]) && provider_map(decls@)[
                            decls@[i2].spec_required()[k2]] == v;
                    assert(requires_edge_prefix(decls@, gi, nr as int, u, v));
                }
            }
        }
    }
    proof {
        lemma_first_failure_skip(decls@, pm, n as int);
        assert(decls@.skip(n as int) =~= Seq::<AssemblyInfo>::empty());
        assert(first_failure(decls@, pm) is None);
        assert forall|u: Seq<char>, v: Seq<char>| #[trigger] graph.has_edge(u, v)
            <==> requires_edge(decls@, u, v) by {
            if graph.has_edge(u, v) {
                let (i2, k2) = choose|i2: int, k2: int|
                    #![trigger decls@[i2].spec_required()[k2]]
                    0 <= i2 < decls@.len() && 0 <= k2 < decls@[i2].spec_required().len() && (i2
                        < n) && decls@[i2].spec_name() == u && provider_map(decls@).dom().contains(
                        decls@[i2].spec_required()[k2],
                    ) && provider_map(decls@)[decls@[i2].spec_required()[k2]] == v;
                assert(requires_edge(decls@, u, v));
            }
            if requires_edge(decls@, u, v) {
                let (i2, k2) = choose|i2: int, k2: int|
                    #![trigger decls@[i2].spec_required()[k2]]
                    0 <= i2 < decls@.len() && 0 <= k2 < decls@[i2].spec_required().len() && decls@[
                        i2].spec_name() == u && provider_map(decls@).dom().contains(
                        decls@[i2].spec_required()[k2],
                    ) && provider_map(decls@)[decls@[i2].spec_required()[k2]] == v;
                assert(requires_edge_prefix(decls@, n as int, 0, u, v));
            }
        }
        lemma_graph_cycles_match(graph, decls@);
    }
    let sr = graph.topological_sort();
    if sr.has_cycle {
        let info = if sr.cycle_path.len() == 0 {
            String::from_str("unknown cycle")
        } else {
            let rendered = render_path(&sr.cycle_path);
            String::from_str("Cycle path: ").concat(rendered.as_str())
        };
        proof {
            if sr.cycle_path@.len() != 0 {
                let views = crate::text::string_views(sr.cycle_path@);
                assert(graph.is_cycle(views));
                assert forall|m: int| 0 <= m < views.len() - 1 implies #[trigger] requires_edge(
                    decls@,
                    views[m],
                    views[m + 1],
                ) by {
                    assert(graph.has_edge(views[m], views[m + 1]));
                }
                assert(decl_cycle(decls@, views));
            }
        }
        return Err(AssemblyError::CyclicDependency(info));
    }
    let sorted = sr.sorted_order;
    let total = sorted.len();
    let ghost order_views = crate::text::string_views(sorted@);
    let mut ord: Vec<usize> = Vec::new();
    for m in 0..total
        invariant
            n == decls@.len(),
            total == sorted@.len(),
            order_views == crate::text::string_views(sorted@),
            graph.valid_topo_order(order_views),
            graph.ids() == distinct_names(decls@),
            ord@.len() == m,
            forall|x: int| 0 <= x < m ==> (#[trigger] ord@[x]) < n,
            forall|x: int|
                0 <= x < m ==> (#[trigger] decls@[ord@[x] as int]).spec_name() == order_views[total
                    - 1 - x],
            forall|x: int| 0 <= x < m ==> #[trigger] first_index_of_name(decls@, ord@[x] as int),
    {
        let name_ref = &sorted[total - 1 - m];
        proof {
            assert(order_views[total - 1 - m as int] == name_ref@);
            assert(order_views.to_set().contains(name_ref@));
            assert(graph.ids().to_set().contains(name_ref@));
            assert(graph.ids().contains(name_ref@));
            lemma_distinct_names_set(decls@);
            assert(decl_names(decls@).contains(name_ref@));
            let j = choose|j: int|
                0 <= j < decl_names(decls@).len() && decl_names(decls@)[j] == name_ref@;
            assert(decls@[j].spec_name() == name_ref@);
        }
        let idx_opt = find_decl(decls, name_ref.as_str());
        proof {
            if idx_opt is None {
                let j = choose|j: int|
                    0 <= j < decl_names(decls@).len() && decl_names(decls@)[j] == name_ref@;
                assert(decls@[j].spec_name() != name_ref@);
                assert(false);
            }
        }
        let idx = idx_opt.unwrap();
        ord.push(idx);
    }
    proof {
        let names = planned_names(decls@, ord@);
        assert(names.len() == total);
        assert forall|x: int| 0 <= x < total implies #[trigger] names[x] == order_views[total - 1
            - x] by {
            assert(decls@[ord@[x] as int].spec_name() == order_views[total - 1 - x]);
        }
        assert(names.no_duplicates()) by {
            assert forall|p: int, q: int|
                0 <= p < names.len() && 0 <= q < names.len() && p != q implies names[p]
                != names[q] by {
                assert(names[p] == order_views[total - 1 - p]);
                assert(names[q] == order_views[total - 1 - q]);
            }
        }
        lemma_distinct_names_set(decls@);
        assert(names.to_set() =~= decl_names(decls@).to_set()) by {
            assert forall|e: Seq<char>| names.to_set().contains(e) implies decl_names(
                decls@,
            ).to_set().contains(e) by {
                let x = choose|x: int| 0 <= x < names.len() && names[x] == e;
                assert(order_views[total - 1 - x] == e);
                assert(order_views.to_set().contains(e));
                assert(graph.ids().contains(e));
                assert(decl_names(decls@).contains(e));
            }
            assert forall|e: Seq<char>| decl_names(decls@).to_set().contains(e) implies names
                .to_set()
                .contains(e) by {
                assert(decl_names(decls@).contains(e));
                assert(distinct_names(decls@).contains(e));
                assert(graph.ids().to_set().contains(e));
                assert(order_views.to_set().contains(e));
                let p = choose|p: int| 0 <= p < order_views.len() && order_views[p] == e;
                assert(names[total - 1 - p] == order_views[total - 1 - (total - 1 - p)]);
                assert(names[total - 1 - p] == e);
            }
        }
        assert forall|p: int, q: int|
            0 <= p < names.len() && 0 <= q < names.len() && #[trigger] requires_edge(
                decls@,
                names[p],
                names[q],
            ) implies q < p by {
            assert(graph.has_edge(names[p], names[q]));
            assert(graph.has_edge(order_views[total - 1 - p], order_views[total - 1 - q]));
            assert(total - 1 - p < total - 1 - q);
        }
        lemma_graph_cycles_match(graph, decls@);
    }
    Ok(ord)
}

/// Whether `needle` occurs contiguously inside `hay`.
pub open spec fn contains_subrange(hay: Seq<char>, needle: Seq<char>) -> bool {
    exists|off: int, end: int|
        0 <= off <= end <= hay.len() && end - off == needle.len() && #[trigger] hay.subrange(
            off,
            end,
        ) == needle
}

/// Text appended at the end leaves every earlier occurrence in place.
proof fn lemma_subrange_preserved(h1: Seq<char>, h2: Seq<char>, needle: Seq<char>)
    requires
        h1.len() <= h2.len(),
        h2.subrange(0, h1.len() as int) == h1,
        contains_subrange(h1, needle),
    ensures
        contains_subrange(h2, needle),
{
    let (off, end) = choose|off: int, end: int|
        0 <= off <= end <= h1.len() && end - off == needle.len() && #[trigger] h1.subrange(
            off,
            end,
        ) == needle;
    assert(h2.subrange(off, end) =~= h1.subrange(off, end));
}

/// Joins every collected failure into one report. The report contains each
/// collected message in full, so no failure is lost in the aggregate.
pub fn aggregate_errors(errors: &Vec<String>) -> (r: String)
    ensures
        forall|x: int|
            0 <= x < errors@.len() ==> contains_subrange(r@, (#[trigger] errors@[x])@),
        contains_subrange(r@, "Errors shutting down:\n "@),
{
    let mut out = String::from_str("Errors shutting down:\n ");
    proof {
        assert(out@.subrange(0, out@.len() as int) =~= out@);
    }
    let n = errors.len();
    for i in 0..n
        invariant
            n == errors@.len(),
            forall|x: int| 0 <= x < i ==> contains_subrange(out@, (#[trigger] errors@[x])@),
            contains_subrange(out@, "Errors shutting down:\n "@),
    {
        let ghost before = out@;
        if i > 0 {
            out.append("\n");
        }
        let ghost mid = out@;
        out.append(errors[i].as_str());
        proof {
            assert(mid.subrange(0, before.len() as int) =~= before);
            assert(out@.subrange(0, mid.len() as int) =~= mid);
            assert(out@.subrange(mid.len() as int, out@.len() as int) =~= errors@[i as int]@);
            assert forall|x: int| 0 <= x < i + 1 implies contains_subrange(
                out@,
                (#[trigger] errors@[x])@,
            ) by {
                if x < i {
                    lemma_subrange_preserved(before, mid, errors@[x]@);
                    lemma_subrange_preserved(mid, out@, errors@[x]@);
                }
            }
            lemma_subrange_preserved(before, mid, "Errors shutting down:\n "@);
            lemma_subrange_preserved(mid, out@, "Errors shutting down:\n "@);
        }
    }
    out
}

/// The orchestrator: holds the registered assemblies, the shared service
/// registry, the logging collaborator, and the runtime mode, and drives the
/// whole lifecycle.
#[verifier::reject_recursive_types(V)]
pub struct Assembler<A, V, M> {
    assemblies: Vec<Arc<A>>,
    registry: ServiceRegistry<V>,
    log_monitor: Arc<M>,
    mode: RuntimeMode,
}

impl<A: ServiceAssembly<V, M>, V, M: LogMonitor> Assembler<A, V, M> {
    /// The assembler invariant: its registry is well-formed.
    pub closed spec fn wf(self) -> bool {
        self.registry.wf()
    }

    /// The registered assemblies, in their current order.
    pub closed spec fn assembly_list(self) -> Seq<Arc<A>> {
        self.assemblies@
    }

    /// The runtime mode the assembler was created with.
    pub closed spec fn spec_mode(self) -> RuntimeMode {
        self.mode
    }

    /// The logging collaborator the assembler was created with.
    pub closed spec fn spec_monitor(self) -> Arc<M> {
        self.log_monitor
    }

    /// Creates an assembler with no registered assemblies and an empty
    /// registry.
    pub fn new(log_monitor: Arc<M>, mode: RuntimeMode) -> (r: Assembler<A, V, M>)
        ensures
            r.wf(),
            r.assembly_list().len() == 0,
            r.spec_mode() == mode,
            r.spec_monitor() == log_monitor,
    {
        Assembler {
            assemblies: Vec::new(),
            registry: ServiceRegistry::new(),
            log_monitor,
            mode,
        }
    }

    /// Registers a service assembly, after those registered so far.
    pub fn register(&mut self, assembly: Arc<A>)
        requires
            old(self).wf(),
        ensures
            final(self).wf(),
            final(self).assembly_list() == old(self).assembly_list().push(assembly),
            final(self).spec_mode() == old(self).spec_mode(),
            final(self).spec_monitor() == old(self).spec_monitor(),
    {
        self.assemblies.push(assembly);
    }

    /// Initializes, prepares and starts the registered assemblies in
    /// dependency order: the declarations are gathered, an execution order is
    /// planned (failing on a missing provider or a dependency cycle before
    /// any hook runs), and then `init`, `prepare` and `start` each run over
    /// every assembly in that order, stopping at the first failure. On full
    /// success the stored list is replaced by the ordered one — a
    /// rearrangement drawing from the registered assemblies; on any failure
    /// the stored list is left as it was.
    pub fn assemble(&mut self) -> (r: Result<(), AssemblyError>)
        requires
            old(self).wf(),
        ensures
            final(self).wf(),
            final(self).spec_mode() == old(self).spec_mode(),
            final(self).spec_monitor() == old(self).spec_monitor(),
            old(self).assembly_list().len() == 0 ==> r is Ok,
            r is Err ==> final(self).assembly_list() == old(self).assembly_list(),
            r is Ok ==> exists|ord: Seq<int>|
                #![trigger ord.no_duplicates()]
                ord.no_duplicates() && (forall|x: int|
                    0 <= x < ord.len() ==> 0 <= #[trigger] ord[x] < old(
                        self,
                    ).assembly_list().len()) && final(self).assembly_list() == ord.map_values(
                    |ix: int| old(self).assembly_list()[ix],
                ),
    {
        let n = self.assemblies.len();
        let mut decls: Vec<AssemblyInfo> = Vec::new();
        for i in 0..n
            invariant
                *self == *old(self),
                n == self.assemblies@.len(),
                decls@.len() == i,
        {
            let a = &self.assemblies[i];
            let nm = a.name().to_owned();
            let prov = a.provides();
            let reqs = a.required();
            decls.push(AssemblyInfo::from_parts(nm, prov, reqs));
        }
        let planned = plan_order(&decls);
        let ord = match planned {
            Ok(o) => o,
            Err(e) => {
                proof {
                    // with nothing registered, planning cannot fail
                    if decls@.len() == 0 {
                        lemma_empty_decls_plan_ok(decls@, Err(e));
                    }
                }
                let msg = e.message();
                self.log_monitor.error(msg.as_str());
                return Err(e);
            },
        };
        let total = ord.len();
        let mut ordered: Vec<Arc<A>> = Vec::new();
        for m in 0..total
            invariant
                *self == *old(self),
                n == self.assemblies@.len(),
                total == ord@.len(),
                decls@.len() == n,
                forall|x: int| 0 <= x < ord@.len() ==> (#[trigger] ord@[x]) < n,
                planned_names(decls@, ord@).no_duplicates(),
                forall|x: int|
                    0 <= x < ord@.len() ==> (#[trigger] decls@[ord@[x] as int]).spec_name()
                        == planned_names(decls@, ord@)[x],
                ordered@.len() == m,
                forall|x: int|
                    0 <= x < m ==> (#[trigger] ordered@[x]) == self.assemblies@[ord@[x] as int],
        {
            ordered.push(crate::registry::arc_clone(&self.assemblies[ord[m]]));
        }
        proof {
            if total > 0 {
                assert(ord@[0] < n);
                assert(old(self).assembly_list().len() == n);
            }
        }
        let init_context = MutableAssemblyContext {
            registry: RegistryWriteHandle::new(&self.registry),
            log_monitor: crate::registry::arc_clone(&self.log_monitor),
            mode: self.mode,
        };
        for m in 0..total
            invariant
                old(self).wf(),
                *self == *old(self),
                total == ordered@.len(),
                total > 0 ==> old(self).assembly_list().len() > 0,
        {
            match ordered[m].init(&init_context) {
                Ok(_) => {
                    let msg = String::from_str("Initialized: ").concat(ordered[m].name());
                    self.log_monitor.debug(msg.as_str());
                },
                Err(e) => {
                    return Err(e);
                },
            }
        }
        let prepare_context = MutableAssemblyContext {
            registry: RegistryWriteHandle::new(&self.registry),
            log_monitor: crate::registry::arc_clone(&self.log_monitor),
            mode: self.mode,
        };
        for m in 0..total
            invariant
                old(self).wf(),
                *self == *old(self),
                total == ordered@.len(),
                total > 0 ==> old(self).assembly_list().len() > 0,
        {
            match ordered[m].prepare(&prepare_context) {
                Ok(_) => {
                    let msg = String::from_str("Prepared: ").concat(ordered[m].name());
                    self.log_monitor.debug(msg.as_str());
                },
                Err(e) => {
                    return Err(e);
                },
            }
        }
        let start_context = AssemblyContext {
            registry: self.registry.share(),
            log_monitor: crate::registry::arc_clone(&self.log_monitor),
            mode: self.mode,
        };
        for m in 0..total
            invariant
                old(self).wf(),
                *self == *old(self),
                total == ordered@.len(),
                total > 0 ==> old(self).assembly_list().len() > 0,
        {
            match ordered[m].start(&start_context) {
                Ok(_) => {
                    let msg = String::from_str("Started: ").concat(ordered[m].name());
                    self.log_monitor.debug(msg.as_str());
                },
                Err(e) => {
                    return Err(e);
                },
            }
        }
        let ghost pre_list = self.assemblies@;
        self.assemblies = ordered;
        proof {
            let witness = ord@.map_values(|u: usize| u as int);
            assert(witness.no_duplicates()) by {
                let names = planned_names(decls@, ord@);
                assert forall|p: int, q: int|
                    0 <= p < witness.len() && 0 <= q < witness.len() && p != q implies witness[p]
                    != witness[q] by {
                    if ord@[p] == ord@[q] {
                        assert(names[p] == names[q]);
                    }
                }
            }
            assert forall|x: int| 0 <= x < witness.len() implies 0 <= #[trigger] witness[x]
                < pre_list.len() by {
                assert(ord@[x] < n);
            }
            assert(self.assemblies@ == witness.map_values(|ix: int| pre_list[ix])) by {
                assert(self.assemblies@.len() == witness.map_values(
                    |ix: int| pre_list[ix],
                ).len());
                assert forall|x: int| 0 <= x < self.assemblies@.len() implies self.assemblies@[x]
                    == witness.map_values(|ix: int| pre_list[ix])[x] by {
                    assert(self.assemblies@[x] == pre_list[ord@[x] as int]);
                }
                assert(self.assemblies@ =~= witness.map_values(|ix: int| pre_list[ix]));
            }
        }
        Ok(())
    }

    /// Finalizes and then shuts down the stored assemblies, each pass in
    /// reverse of the stored order. Unlike `assemble`, every hook is
    /// attempted regardless of earlier failures; all failures are collected
    /// and reported together in one aggregated error.
    pub fn shutdown(&self) -> (r: Result<(), AssemblyError>)
        ensures
            self.assembly_list().len() == 0 ==> r is Ok,
            match r {
                Ok(_) => true,
                Err(e) => match e {
                    AssemblyError::GeneralError(msg) => contains_subrange(
                        msg@,
                        "Errors shutting down:\n "@,
                    ),
                    _ => false,
                },
            },
    {
        let mut errors: Vec<String> = Vec::new();
        let total = self.assemblies.len();
        for m in 0..total
            invariant
                total == self.assemblies@.len(),
                total == 0 ==> errors@.len() == 0,
        {
            let idx = total - 1 - m;
            match self.assemblies[idx].finalize() {
                Ok(_) => {
                    let msg = String::from_str("Finalized: ").concat(self.assemblies[idx].name());
                    self.log_monitor.debug(msg.as_str());
                },
                Err(e) => {
                    errors.push(finalize_failure_line(self.assemblies[idx].name(), &e));
                },
            }
        }
        for m in 0..total
            invariant
                total == self.assemblies@.len(),
                total == 0 ==> errors@.len() == 0,
        {
            let idx = total - 1 - m;
            match self.assemblies[idx].shutdown() {
                Ok(_) => {
                    let msg = String::from_str("Shutdown: ").concat(self.assemblies[idx].name());
                    self.log_monitor.debug(msg.as_str());
                },
                Err(e) => {
                    errors.push(shutdown_failure_line(self.assemblies[idx].name(), &e));
                },
            }
        }
        teardown_verdict(&errors)
    }
}

/// Unfolds the provider map of a pair of declarations that each provide one
/// distinct capability.
proof fn lemma_pair_provider_map(decls: Seq<AssemblyInfo>, cap0: Seq<char>, cap1: Seq<char>)
    requires
        decls.len() == 2,
        decls[0].spec_provides() == seq![cap0],
        decls[1].spec_provides() == seq![cap1],
        cap0 != cap1,
    ensures
        provider_map(decls).dom() =~= set![cap0, cap1],
        provider_map(decls)[cap0] == decls[0].spec_name(),
        provider_map(decls)[cap1] == decls[1].spec_name(),
{
    let inner = decls.drop_last();
    assert(inner.len() == 1);
    assert(inner[0] == decls[0]);
    assert(inner.drop_last() =~= Seq::<AssemblyInfo>::empty());
    assert(provider_map(inner.drop_last()) == Map::<Seq<char>, Seq<char>>::empty());
    let keys0 = decls[0].spec_provides();
    assert(keys0.drop_last() =~= Seq::<Seq<char>>::empty());
    assert(keys0.last() == cap0);
    assert(keys_to_provider(
        Map::<Seq<char>, Seq<char>>::empty(),
        keys0.drop_last(),
        decls[0].spec_name(),
    ) == Map::<Seq<char>, Seq<char>>::empty());
    assert(provider_map(inner) =~= Map::<Seq<char>, Seq<char>>::empty().insert(
        cap0,
        decls[0].spec_name(),
    ));
    let keys1 = decls[1].spec_provides();
    assert(keys1.drop_last() =~= Seq::<Seq<char>>::empty());
    assert(keys1.last() == cap1);
    assert(keys_to_provider(provider_map(inner), keys1.drop_last(), decls[1].spec_name())
        == provider_map(inner));
    assert(provider_map(decls) =~= provider_map(inner).insert(cap1, decls[1].spec_name()));
}

/// A one-element requirement list whose capability is provided misses
/// nothing; a declaration pair with such requirement lists fails nowhere.
proof fn lemma_pair_no_failure(decls: Seq<AssemblyInfo>, pm: Map<Seq<char>, Seq<char>>)
    requires
        decls.len() == 2,
        first_missing_key(decls[0].spec_required(), pm) is None,
        first_missing_key(decls[1].spec_required(), pm) is None,
    ensures
        first_failure(decls, pm) is None,
{
    assert(decls.first() == decls[0]);
    let rest = decls.drop_first();
    assert(rest.len() == 1);
    assert(rest[0] == decls[1]);
    assert(rest.first() == decls[1]);
    assert(rest.drop_first() =~= Seq::<AssemblyInfo>::empty());
    assert(first_failure(rest.drop_first(), pm) is None);
    assert(first_failure(rest, pm) is None);
}

/// A provided one-element requirement list misses nothing.
proof fn lemma_single_requirement_provided(keys: Seq<Seq<char>>, pm: Map<Seq<char>, Seq<char>>)
    requires
        keys.len() == 1,
        pm.dom().contains(keys[0]),
    ensures
        first_missing_key(keys, pm) is None,
{
    assert(keys.first() == keys[0]);
    assert(keys.drop_first() =~= Seq::<Seq<char>>::empty());
    assert(first_missing_key(keys.drop_first(), pm) is None);
}

/// Given: one assembly provides a capability and requires nothing; another
/// provides a different capability and requires the first one. Then planning
/// succeeds and puts the provider first and the consumer second, whichever
/// way the two were declared.
pub proof fn lemma_provider_consumer_order(
    decls: Seq<AssemblyInfo>,
    r: Result<Vec<usize>, AssemblyError>,
    pi: int,
    ci: int,
    cap: Seq<char>,
    other: Seq<char>,
)
    requires
        plan_post(decls, r),
        decls.len() == 2,
        0 <= pi < 2,
        0 <= ci < 2,
        pi != ci,
        decls[pi].spec_name() != decls[ci].spec_name(),
        decls[pi].spec_provides() == seq![cap],
        decls[pi].spec_required() == Seq::<Seq<char>>::empty(),
        decls[ci].spec_provides() == seq![other],
        other != cap,
        decls[ci].spec_required() == seq![cap],
    ensures
        r is Ok,
        planned_names(decls, (r->Ok_0)@) == seq![decls[pi].spec_name(), decls[ci].spec_name()],
{
    let pm = provider_map(decls);
    let pname = decls[pi].spec_name();
    let cname = decls[ci].spec_name();
    if pi == 0 {
        lemma_pair_provider_map(decls, cap, other);
    } else {
        lemma_pair_provider_map(decls, other, cap);
    }
    assert(pm.dom().contains(cap) && pm[cap] == pname);
    assert(first_missing_key(decls[pi].spec_required(), pm) is None);
    lemma_single_requirement_provided(decls[ci].spec_required(), pm);
    lemma_pair_no_failure(decls, pm);
    // the only dependency the declarations induce runs consumer to provider
    assert forall|u: Seq<char>, v: Seq<char>| #[trigger] requires_edge(decls, u, v) implies u
        == cname && v == pname by {
        let (i2, k2) = choose|i2: int, k2: int|
            #![trigger decls[i2].spec_required()[k2]]
            0 <= i2 < decls.len() && 0 <= k2 < decls[i2].spec_required().len() && decls[
                i2].spec_name() == u && provider_map(decls).dom().contains(
                decls[i2].spec_required()[k2],
            ) && provider_map(decls)[decls[i2].spec_required()[k2]] == v;
        assert(i2 == ci);
        assert(decls[i2].spec_required()[k2] == cap);
    }
    assert(!decls_cyclic(decls)) by {
        if decls_cyclic(decls) {
            let path = choose|path: Seq<Seq<char>>| decl_cycle(decls, path);
            assert(requires_edge(decls, path[0int], path[0int + 1]));
            assert(path[0int] == cname && path[1int] == pname);
            if path.len() == 2 {
                assert(path.first() == path.last());
                assert(cname == pname);
            } else {
                assert(requires_edge(decls, path[1int], path[1int + 1]));
                assert(path[1int] == cname);
                assert(cname == pname);
            }
            assert(false);
        }
    }
    match r {
        Ok(ord) => {
            let names = planned_names(decls, ord@);
            assert(requires_edge(decls, cname, pname)) by {
                assert(decls[ci].spec_required()[0] == cap);
                assert(pm.dom().contains(decls[ci].spec_required()[0]));
                assert(pm[decls[ci].spec_required()[0]] == pname);
            }
            assert(decl_names(decls).to_set() =~= set![pname, cname]) by {
                assert(decl_names(decls)[pi] == pname);
                assert(decl_names(decls)[ci] == cname);
                assert forall|e: Seq<char>| decl_names(decls).to_set().contains(e) implies set![
                    pname,
                    cname,
                ].contains(e) by {
                    let j = choose|j: int|
                        0 <= j < decl_names(decls).len() && decl_names(decls)[j] == e;
                }
            }
            names.unique_seq_to_set();
            vstd::set_lib::lemma_int_range(0, 0);
            assert(set![pname, cname].len() == 2) by {
                assert(set![pname, cname] =~= Set::<Seq<char>>::empty().insert(pname).insert(
                    cname,
                ));
            }
            assert(names.len() == 2);
            assert(names.to_set().contains(pname));
            assert(names.contains(pname));
            assert(names.to_set().contains(cname));
            assert(names.contains(cname));
            let a = choose|a: int| 0 <= a < names.len() && names[a] == cname;
            let b = choose|b: int| 0 <= b < names.len() && names[b] == pname;
            assert(requires_edge(decls, names[a], names[b]));
            assert(b < a);
            assert(b == 0 && a == 1);
            assert(names =~= seq![pname, cname]);
        },
        Err(e) => {
            match e {
                AssemblyError::MissingDependency { assembly, message } => {
                    assert(false);
                },
                AssemblyError::CyclicDependency(info) => {
                    assert(false);
                },
                _ => {
                    assert(false);
                },
            }
        },
    }
}

/// A requirement without a provider is always reported: the plan fails with
/// a missing-dependency error naming the first assembly whose requirement
/// has no provider.
pub proof fn lemma_missing_dependency_reported(
    decls: Seq<AssemblyInfo>,
    r: Result<Vec<usize>, AssemblyError>,
)
    requires
        plan_post(decls, r),
        first_failure(decls, provider_map(decls)) is Some,
    ensures
        match r {
            Err(e) => match e {
                AssemblyError::MissingDependency { assembly, message } => match first_failure(
                    decls,
                    provider_map(decls),
                ) {
                    Some(f) => assembly@ == f.0,
                    None => false,
                },
                _ => false,
            },
            Ok(_) => false,
        },
{
}

/// Two assemblies that each require what the other provides are always
/// rejected as a dependency cycle, before any lifecycle hook could run.
pub proof fn lemma_mutual_requirement_cycle(
    decls: Seq<AssemblyInfo>,
    r: Result<Vec<usize>, AssemblyError>,
    a: Seq<char>,
    b: Seq<char>,
)
    requires
        plan_post(decls, r),
        decls.len() == 2,
        decls[0].spec_name() != decls[1].spec_name(),
        decls[0].spec_provides() == seq![a],
        decls[0].spec_required() == seq![b],
        decls[1].spec_provides() == seq![b],
        decls[1].spec_required() == seq![a],
        a != b,
    ensures
        match r {
            Err(e) => e is CyclicDependency,
            Ok(_) => false,
        },
{
    let pm = provider_map(decls);
    let n0 = decls[0].spec_name();
    let n1 = decls[1].spec_name();
    lemma_pair_provider_map(decls, a, b);
    lemma_single_requirement_provided(decls[0].spec_required(), pm);
    lemma_single_requirement_provided(decls[1].spec_required(), pm);
    lemma_pair_no_failure(decls, pm);
    assert(decls_cyclic(decls)) by {
        let path = seq![n0, n1, n0];
        assert(requires_edge(decls, n0, n1)) by {
            assert(decls[0].spec_required()[0] == b);
            assert(pm.dom().contains(decls[0].spec_required()[0]));
            assert(pm[decls[0].spec_required()[0]] == n1);
        }
        assert(requires_edge(decls, n1, n0)) by {
            assert(decls[1].spec_required()[0] == a);
            assert(pm.dom().contains(decls[1].spec_required()[0]));
            assert(pm[decls[1].spec_required()[0]] == n0);
        }
        assert(path[0] == n0 && path[1] == n1 && path[2] == n0);
        assert forall|m: int| 0 <= m < path.len() - 1 implies #[trigger] requires_edge(
            decls,
            path[m],
            path[m + 1],
        ) by {
            if m == 0 {
            } else {
                assert(m == 1);
            }
        }
        assert(decl_cycle(decls, path));
    }
}

/// With nothing declared there is nothing to miss and nothing to cycle:
/// planning always succeeds on an empty declaration list.
pub proof fn lemma_empty_decls_plan_ok(
    decls: Seq<AssemblyInfo>,
    r: Result<Vec<usize>, AssemblyError>,
)
    requires
        plan_post(decls, r),
        decls.len() == 0,
    ensures
        r is Ok,
{
    match r {
        Ok(_) => {},
        Err(e) => {
            match e {
                AssemblyError::MissingDependency { assembly, message } => {
                    assert(first_failure(decls, provider_map(decls)) is None);
                    assert(false);
                },
                AssemblyError::CyclicDependency(info) => {
                    assert(decls_cyclic(decls));
                    let path = choose|path: Seq<Seq<char>>| decl_cycle(decls, path);
                    assert(requires_edge(decls, path[0int], path[0int + 1]));
                    let (i2, k2) = choose|i2: int, k2: int|
                        #![trigger decls[i2].spec_required()[k2]]
                        0 <= i2 < decls.len() && 0 <= k2 < decls[i2].spec_required().len()
                            && decls[i2].spec_name() == path[0int] && provider_map(
                            decls,
                        ).dom().contains(decls[i2].spec_required()[k2]) && provider_map(decls)[
                            decls[i2].spec_required()[k2]] == path[0int + 1];
                    assert(false);
                },
                _ => {
                    assert(false);
                },
            }
        },
    }
}

/// The report line for a failed `finalize` hook: the phase, the assembly's
/// quoted name, and the hook's own message.
pub fn finalize_failure_line(name: &str, error: &AssemblyError) -> (r: String)
    ensures
        r@ == "Finalize: '"@ + name@ + "': "@ + error.spec_message(),
{
    String::from_str("Finalize: '").concat(name).concat("': ").concat(error.message().as_str())
}

/// The report line for a failed `shutdown` hook: the phase, the assembly's
/// name, and the hook's own message.
pub fn shutdown_failure_line(name: &str, error: &AssemblyError) -> (r: String)
    ensures
        r@ == "Shutdown: "@ + name@ + ": "@ + error.spec_message(),
{
    String::from_str("Shutdown: ").concat(name).concat(": ").concat(error.message().as_str())
}

/// Decides the outcome of a teardown from the collected failure lines:
/// success exactly when nothing failed, and otherwise one aggregated
/// general error whose message carries every collected line and the report
/// header.
pub fn teardown_verdict(errors: &Vec<String>) -> (r: Result<(), AssemblyError>)
    ensures
        (errors@.len() == 0) <==> r is Ok,
        match r {
            Ok(_) => true,
            Err(e) => match e {
                AssemblyError::GeneralError(msg) => (forall|x: int|
                    0 <= x < errors@.len() ==> contains_subrange(
                        msg@,
                        (#[trigger] errors@[x])@,
                    )) && contains_subrange(msg@, "Errors shutting down:\n "@),
                _ => false,
            },
        },
{
    if errors.len() == 0 {
        Ok(())
    } else {
        Err(AssemblyError::GeneralError(aggregate_errors(errors)))
    }
}

/// Copies a list of capability keys.
fn clone_keys(keys: &Vec<TypeKey>) -> (r: Vec<TypeKey>)
    ensures
        r@ == keys@,
{
    let n = keys.len();
    let mut out: Vec<TypeKey> = Vec::new();
    for i in 0..n
        invariant
            n == keys@.len(),
            out@ =~= keys@.take(i as int),
    {
        out.push(keys[i].clone());
        proof {
            assert(out@ =~= keys@.take(i + 1));
        }
    }
    proof {
        assert(keys@.take(n as int) =~= keys@);
    }
    out
}

} // verus!

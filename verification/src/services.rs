//! The services of a federated schema, as its `graph` directives name them.
use vstd::prelude::*;
use crate::assoc::{get_key, key_index, keys_unique, lemma_key_index_same_keys, lemma_set_key_unique, set_key};
use crate::json::{find_key, key_view};

verus! {

/// The value of a directive's argument: a string, or anything else.
pub enum ArgValue {
    String(String),
    Other,
}

/// A directive with its arguments, in order.
pub struct Directive {
    pub name: String,
    pub arguments: Vec<(String, ArgValue)>,
}

/// A definition of a schema document: a schema definition with its
/// directives, or any other definition.
pub enum Definition {
    Schema(Vec<Directive>),
    Other,
}

/// The value of a directive's argument: its text where it is a string.
pub open spec fn arg_view(v: ArgValue) -> Option<Seq<char>> {
    match v {
        ArgValue::String(s) => Some(s@),
        ArgValue::Other => None,
    }
}

/// A directive's name and arguments, as values.
pub struct DirectiveV {
    pub name: Seq<char>,
    pub arguments: Seq<(Seq<char>, Option<Seq<char>>)>,
}

/// A definition, as a value.
pub enum DefinitionV {
    Schema(Seq<DirectiveV>),
    Other,
}

impl View for Directive {
    type V = DirectiveV;

    open spec fn view(&self) -> DirectiveV {
        DirectiveV {
            name: self.name@,
            arguments: Seq::new(self.arguments@.len(), |i: int| (self.arguments@[i].0@, arg_view(self.arguments@[i].1))),
        }
    }
}

impl View for Definition {
    type V = DefinitionV;

    open spec fn view(&self) -> DefinitionV {
        match self {
            Definition::Schema(dirs) => DefinitionV::Schema(Seq::new(dirs@.len(), |i: int| dirs@[i]@)),
            Definition::Other => DefinitionV::Other,
        }
    }
}

/// The definitions of a document, as values.
pub open spec fn definitions_view(defs: Seq<Definition>) -> Seq<DefinitionV> {
    Seq::new(defs.len(), |i: int| defs[i]@)
}

/// The name of the directive that names a service.
pub open spec fn graph_name() -> Seq<char> {
    "graph"@
}

/// The directives of the last schema definition of the document; none where
/// it has none.
pub open spec fn last_schema(defs: Seq<DefinitionV>) -> Option<Seq<DirectiveV>>
    decreases defs.len(),
{
    if defs.len() == 0 {
        None
    } else {
        match defs.last() {
            DefinitionV::Schema(dirs) => Some(dirs),
            DefinitionV::Other => last_schema(defs.drop_last()),
        }
    }
}

/// A directive's arguments as a map from name to text, a later argument
/// overriding an earlier one of the same name; none where an argument is not
/// a string.
pub open spec fn args_map(args: Seq<(Seq<char>, Option<Seq<char>>)>) -> Option<Seq<(Seq<char>, Seq<char>)>>
    decreases args.len(),
{
    if args.len() == 0 {
        Some(Seq::empty())
    } else {
        match args_map(args.drop_last()) {
            None => None,
            Some(m) => match args.last().1 {
                Some(text) => Some(set_key(m, args.last().0, text)),
                None => None,
            },
        }
    }
}

/// The services named by the first `n` directives: each `graph` directive
/// binds the text of its `name` argument to that of its `url` argument, a
/// later one overriding an earlier one; none where a `graph` directive has an
/// argument that is not a string, or lacks `name` or `url`.
pub open spec fn services_from(dirs: Seq<DirectiveV>, n: nat) -> Option<Seq<(Seq<char>, Seq<char>)>>
    decreases n,
{
    if n == 0 || n > dirs.len() {
        Some(Seq::empty())
    } else {
        match services_from(dirs, (n - 1) as nat) {
            None => None,
            Some(acc) => {
                let d = dirs[n - 1];
                if d.name == graph_name() {
                    match args_map(d.arguments) {
                        None => None,
                        Some(m) => match (get_key(m, "name"@), get_key(m, "url"@)) {
                            (Some(name), Some(url)) => Some(set_key(acc, name, url)),
                            _ => None,
                        },
                    }
                } else {
                    Some(acc)
                }
            },
        }
    }
}

/// The services of a schema document: those that the directives of its last
/// schema definition name; none where it has no schema definition or a
/// `graph` directive is malformed.
pub open spec fn service_list_spec(defs: Seq<DefinitionV>) -> Option<Seq<(Seq<char>, Seq<char>)>> {
    match last_schema(defs) {
        None => None,
        Some(dirs) => services_from(dirs, dirs.len()),
    }
}

/// The services of the gateway: each service name with its URL.
pub struct ServiceList {
    entries: Vec<(String, String)>,
}

impl View for ServiceList {
    type V = Seq<(Seq<char>, Seq<char>)>;

    closed spec fn view(&self) -> Seq<(Seq<char>, Seq<char>)> {
        Seq::new(self.entries@.len(), |i: int| (self.entries@[i].0@, self.entries@[i].1@))
    }
}

impl ServiceList {
    /// No service name occurs twice.
    #[verifier::type_invariant]
    spec fn names_unique(self) -> bool {
        keys_unique(self@)
    }

    /// No services.
    pub fn empty() -> (r: ServiceList)
        ensures
            r@ == Seq::<(Seq<char>, Seq<char>)>::empty(),
    {
        let r = ServiceList { entries: Vec::new() };
        assert(r@ =~= Seq::empty());
        r
    }

    /// The URL of a service; none where there is no such service.
    pub fn url_of(&self, name: &String) -> (r: Option<String>)
        ensures
            match r {
                Some(u) => get_key(self@, name@) == Some(u@),
                None => get_key(self@, name@) is None,
            },
    {
        proof {
            lemma_key_index_same_keys(key_view(self.entries@), self@, name@);
            crate::assoc::lemma_key_index(self@, name@);
        }
        match find_key(&self.entries, name) {
            Some(i) => Some(self.entries[i].1.clone()),
            None => None,
        }
    }

    /// The number of services; no service name occurs twice.
    pub fn len(&self) -> (r: usize)
        ensures
            r == self@.len(),
            keys_unique(self@),
    {
        proof {
            use_type_invariant(self);
        }
        self.entries.len()
    }

    /// The name and URL of the service at a position.
    pub fn entry(&self, i: usize) -> (r: (String, String))
        requires
            i < self@.len(),
        ensures
            (r.0@, r.1@) == self@[i as int],
    {
        (self.entries[i].0.clone(), self.entries[i].1.clone())
    }

    /// Binds a service name to a URL.
    fn bind(&mut self, name: String, url: String)
        ensures
            final(self)@ == set_key(old(self)@, name@, url@),
    {
        proof {
            use_type_invariant(&*self);
        }
        let ghost before = self@;
        let mut e: Vec<(String, String)> = Vec::new();
        std::mem::swap(&mut e, &mut self.entries);
        proof {
            assert(Seq::new(e@.len(), |i: int| (e@[i].0@, e@[i].1@)) =~= before);
            lemma_key_index_same_keys(key_view(e@), before, name@);
            crate::assoc::lemma_key_index(before, name@);
            lemma_set_key_unique(before, name@, url@);
        }
        match find_key(&e, &name) {
            Some(i) => {
                e.set(i, (name, url));
            },
            None => {
                e.push((name, url));
            },
        }
        assert(Seq::new(e@.len(), |i: int| (e@[i].0@, e@[i].1@)) =~= set_key(before, name@, url@));
        self.entries = e;
    }
}

/// A directive's arguments as a map, as `args_map` says; none where an
/// argument is not a string.
pub fn try_directive_args_as_map(args: &Vec<(String, ArgValue)>) -> (r: Option<ServiceList>)
    ensures
        match r {
            Some(m) => args_map(Seq::new(args@.len(), |i: int| (args@[i].0@, arg_view(args@[i].1)))) == Some(m@),
            None => args_map(Seq::new(args@.len(), |i: int| (args@[i].0@, arg_view(args@[i].1)))) is None,
        },
{
    let ghost av = Seq::new(args@.len(), |i: int| (args@[i].0@, arg_view(args@[i].1)));
    let mut m = ServiceList { entries: Vec::new() };
    assert(m@ =~= Seq::empty());
    let mut i: usize = 0;
    while i < args.len()
        invariant
            i <= args.len(),
            av == Seq::new(args@.len(), |i: int| (args@[i].0@, arg_view(args@[i].1))),
            args_map(av.take(i as int)) == Some(m@),
        decreases args.len() - i,
    {
        assert(av.take(i + 1).drop_last() =~= av.take(i as int));
        assert(av.take(i + 1).last() == av[i as int]);
        match &args[i].1 {
            ArgValue::String(s) => {
                m.bind(args[i].0.clone(), s.clone());
            },
            ArgValue::Other => {
                proof {
                    lemma_args_map_none(av, i as int + 1);
                }
                return None;
            },
        }
        i += 1;
    }
    assert(av.take(args.len() as int) =~= av);
    Some(m)
}

proof fn lemma_args_map_none(args: Seq<(Seq<char>, Option<Seq<char>>)>, n: int)
    requires
        0 <= n <= args.len(),
        args_map(args.take(n)) is None,
    ensures
        args_map(args) is None,
    decreases args.len() - n,
{
    if n < args.len() {
        assert(args.take(n + 1).drop_last() =~= args.take(n));
        lemma_args_map_none(args, n + 1);
    } else {
        assert(args.take(n) =~= args);
    }
}

proof fn lemma_services_none(dirs: Seq<DirectiveV>, m: nat)
    requires
        m <= dirs.len(),
        services_from(dirs, m) is None,
    ensures
        services_from(dirs, dirs.len()) is None,
    decreases dirs.len() - m,
{
    if m < dirs.len() {
        lemma_services_none(dirs, m + 1);
    }
}

/// The directives of the last schema definition of the document, as
/// `last_schema` says.
fn find_last_schema(schema: &Vec<Definition>) -> (r: Option<&Vec<Directive>>)
    ensures
        match r {
            Some(dirs) => last_schema(definitions_view(schema@)) == Some(Seq::new(dirs@.len(), |i: int| dirs@[i]@)),
            None => last_schema(definitions_view(schema@)) is None,
        },
{
    let ghost dv = definitions_view(schema@);
    let mut i = schema.len();
    assert(dv.take(i as int) =~= dv);
    while i > 0
        invariant
            i <= schema.len(),
            dv == definitions_view(schema@),
            last_schema(dv) == last_schema(dv.take(i as int)),
        decreases i,
    {
        assert(dv.take(i as int).drop_last() =~= dv.take(i - 1));
        assert(dv.take(i as int).last() == schema@[i - 1]@);
        match &schema[i - 1] {
            Definition::Schema(dirs) => {
                return Some(dirs);
            },
            Definition::Other => {},
        }
        i -= 1;
    }
    None
}

/// The services of a schema document, as `service_list_spec` says; none
/// where the document has no schema definition or a `graph` directive is
/// malformed. No service name occurs twice.
pub fn try_get_service_list(schema: &Vec<Definition>) -> (r: Option<ServiceList>)
    ensures
        match r {
            Some(list) => service_list_spec(definitions_view(schema@)) == Some(list@) && keys_unique(list@),
            None => service_list_spec(definitions_view(schema@)) is None,
        },
{
    let dirs = match find_last_schema(schema) {
        None => {
            return None;
        },
        Some(d) => d,
    };
    let ghost dsv = Seq::new(dirs@.len(), |i: int| dirs@[i]@);
    let graph = "graph".to_owned();
    let name_key = "name".to_owned();
    let url_key = "url".to_owned();
    let mut acc = ServiceList { entries: Vec::new() };
    assert(acc@ =~= Seq::empty());
    let mut i: usize = 0;
    while i < dirs.len()
        invariant
            i <= dirs.len(),
            dsv == Seq::new(dirs@.len(), |i: int| dirs@[i]@),
            last_schema(definitions_view(schema@)) == Some(dsv),
            graph@ == graph_name(),
            name_key@ == "name"@,
            url_key@ == "url"@,
            services_from(dsv, i as nat) == Some(acc@),
            keys_unique(acc@),
        decreases dirs.len() - i,
    {
        let d = &dirs[i];
        assert(dsv[i as int] == d@);
        if d.name == graph {
            assert(d@.arguments =~= Seq::new(d.arguments@.len(), |j: int| (d.arguments@[j].0@, arg_view(d.arguments@[j].1))));
            let args = match try_directive_args_as_map(&d.arguments) {
                None => {
                    proof {
                        lemma_services_none(dsv, (i + 1) as nat);
                    }
                    return None;
                },
                Some(a) => a,
            };
            let name = args.url_of(&name_key);
            let url = args.url_of(&url_key);
            match (name, url) {
                (Some(n), Some(u)) => {
                    proof {
                        lemma_set_key_unique(acc@, n@, u@);
                    }
                    acc.bind(n, u);
                },
                _ => {
                    proof {
                        lemma_services_none(dsv, (i + 1) as nat);
                    }
                    return None;
                },
            }
        }
        i += 1;
    }
    Some(acc)
}

/// The services of a schema document, as `service_list_spec` says. No
/// service name occurs twice.
pub fn get_service_list(schema: &Vec<Definition>) -> (r: ServiceList)
    requires
        service_list_spec(definitions_view(schema@)) is Some,
    ensures
        service_list_spec(definitions_view(schema@)) == Some(r@),
        keys_unique(r@),
{
    match try_get_service_list(schema) {
        Some(list) => list,
        None => ServiceList { entries: Vec::new() },
    }
}

/// A directive's arguments as a map from name to text, as `args_map` says.
pub fn directive_args_as_map(args: &Vec<(String, ArgValue)>) -> (r: ServiceList)
    requires
        args_map(Seq::new(args@.len(), |i: int| (args@[i].0@, arg_view(args@[i].1)))) is Some,
    ensures
        args_map(Seq::new(args@.len(), |i: int| (args@[i].0@, arg_view(args@[i].1)))) == Some(r@),
{
    match try_directive_args_as_map(args) {
        Some(m) => m,
        None => ServiceList { entries: Vec::new() },
    }
}

} // verus!

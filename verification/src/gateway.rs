//! The gateway: a federated schema and the services that it names.
use vstd::prelude::*;
use graphql_parser::schema as gs;
use crate::assoc::{get_key, keys_unique};
use crate::services::{
    definitions_view, service_list_spec, try_get_service_list, ArgValue, Definition, DefinitionV, Directive,
    ServiceList,
};

verus! {

#[verifier::external_type_specification]
#[verifier::external_body]
pub struct ExSchemaParseError(graphql_parser::schema::ParseError);

/// White space that is not ASCII: the characters besides ASCII white space
/// that `str::trim_start` removes.
pub open spec fn wide_space(c: char) -> bool {
    c == '\u{85}' || c == '\u{a0}' || c == '\u{1680}' || ('\u{2000}' <= c && c <= '\u{200a}')
        || c == '\u{2028}' || c == '\u{2029}' || c == '\u{202f}' || c == '\u{205f}' || c == '\u{3000}'
}

/// ASCII white space.
pub open spec fn ascii_space(c: char) -> bool {
    c == ' ' || c == '\t' || c == '\n' || c == '\u{b}' || c == '\u{c}' || c == '\r'
}

/// The number of bytes of a character in UTF-8.
pub open spec fn utf8_len(c: char) -> int {
    if (c as u32) < 0x80 {
        1
    } else if (c as u32) < 0x800 {
        2
    } else if (c as u32) < 0x10000 {
        3
    } else {
        4
    }
}

/// Position `j` holds white space of the indent it is in: white space that
/// is not a line break.
pub open spec fn in_run(t: Seq<char>, j: int) -> bool {
    0 <= j < t.len() && t[j] != '\n' && (ascii_space(t[j]) || wide_space(t[j]))
}

/// The number of bytes of the white space from `j` to the first character
/// that is not white space or ends the line.
pub open spec fn run_bytes(t: Seq<char>, j: int) -> int
    decreases t.len() - j,
{
    if in_run(t, j) {
        utf8_len(t[j]) + run_bytes(t, j + 1)
    } else {
        0
    }
}

/// The line from `j` holds something besides white space.
pub open spec fn nonblank_from(t: Seq<char>, j: int) -> bool
    decreases t.len() - j,
{
    if in_run(t, j) {
        nonblank_from(t, j + 1)
    } else {
        0 <= j < t.len() && t[j] != '\n'
    }
}

/// Cutting the white space from `j` after `b` bytes does not fall inside a
/// character (or `b` bytes is more than that white space holds).
pub open spec fn fits(t: Seq<char>, j: int, b: int) -> bool
    decreases t.len() - j,
{
    if b <= 0 {
        b == 0
    } else if in_run(t, j) {
        fits(t, j + 1, b - utf8_len(t[j]))
    } else {
        true
    }
}

/// A line starts at `s`.
pub open spec fn line_start(t: Seq<char>, s: int) -> bool {
    0 <= s <= t.len() && (s == 0 || t[s - 1] == '\n')
}

/// The indent of no line cuts the white space at the start of another line
/// inside a character. The parser measures the indent of the lines of a
/// block string in bytes and cuts every line after the smallest indent, which
/// would otherwise fall inside a character and panic; texts where it could
/// are left out of what the gateway loads.
pub open spec fn clean_indents(t: Seq<char>) -> bool {
    forall|s1: int, s2: int| #![trigger line_start(t, s1), line_start(t, s2)]
        line_start(t, s1) && line_start(t, s2) && nonblank_from(t, s1) ==> fits(t, s2, run_bytes(t, s1))
}

fn utf8_len_of(c: char) -> (r: u128)
    ensures
        r == utf8_len(c),
{
    let u = c as u32;
    if u < 0x80 {
        1
    } else if u < 0x800 {
        2
    } else if u < 0x10000 {
        3
    } else {
        4
    }
}

fn is_run_char(c: char) -> (r: bool)
    ensures
        r == (c != '\n' && (ascii_space(c) || wide_space(c))),
{
    c != '\n' && (c == ' ' || c == '\t' || c == '\u{b}' || c == '\u{c}' || c == '\r' || c == '\u{85}' || c == '\u{a0}'
        || c == '\u{1680}' || ('\u{2000}' <= c && c <= '\u{200a}') || c == '\u{2028}' || c == '\u{2029}' || c == '\u{202f}'
        || c == '\u{205f}' || c == '\u{3000}')
}

/// The bytes of the white space at the start of the line from `s`, and
/// whether the line holds anything else.
fn indent_of(text: &str, n: usize, s: usize) -> (r: (u128, bool))
    requires
        n == text@.len(),
        s <= n,
    ensures
        r.0 == run_bytes(text@, s as int),
        r.1 == nonblank_from(text@, s as int),
{
    let mut j = s;
    let mut acc: u128 = 0;
    while j < n && is_run_char(text.get_char(j))
        invariant
            s <= j <= n,
            n == text@.len(),
            acc + run_bytes(text@, j as int) == run_bytes(text@, s as int),
            nonblank_from(text@, j as int) == nonblank_from(text@, s as int),
            acc <= 4 * (j - s),
        decreases n - j,
    {
        let l = utf8_len_of(text.get_char(j));
        acc = acc + l;
        j += 1;
    }
    let nb = j < n && text.get_char(j) != '\n';
    (acc, nb)
}

/// Does cutting the white space at the start of the line from `s` after `b`
/// bytes leave every character whole.
fn fits_at(text: &str, n: usize, s: usize, b: u128) -> (r: bool)
    requires
        n == text@.len(),
        s <= n,
    ensures
        r == fits(text@, s as int, b as int),
{
    let mut j = s;
    let mut rem = b;
    while rem > 0 && j < n && is_run_char(text.get_char(j))
        invariant
            s <= j <= n,
            n == text@.len(),
            fits(text@, j as int, rem as int) == fits(text@, s as int, b as int),
        decreases n - j,
    {
        let l = utf8_len_of(text.get_char(j));
        if l > rem {
            proof {
                assert(in_run(text@, j as int));
                assert(!fits(text@, j as int + 1, rem as int - l as int));
            }
            return false;
        }
        rem = rem - l;
        j += 1;
    }
    true
}

/// Does the text have clean indents, as `clean_indents` says.
pub fn has_clean_indents(text: &str) -> (r: bool)
    ensures
        r == clean_indents(text@),
{
    let n = text.unicode_len();
    let mut starts: Vec<usize> = Vec::new();
    starts.push(0);
    assert(starts@[0] == 0);
    let mut i: usize = 0;
    while i < n
        invariant
            i <= n,
            n == text@.len(),
            forall|k: int| 0 <= k < starts@.len() ==> line_start(text@, #[trigger] starts@[k] as int),
            forall|k: int| 0 <= k < starts@.len() ==> #[trigger] starts@[k] <= i,
            forall|x: int| 0 <= x <= i && #[trigger] line_start(text@, x) ==> exists|k: int| 0 <= k < starts@.len() && starts@[k] == x,
        decreases n - i,
    {
        let ghost old_starts = starts@;
        if text.get_char(i) == '\n' {
            starts.push(i + 1);
        }
        proof {
            assert forall|x: int| 0 <= x <= i + 1 && #[trigger] line_start(text@, x) implies exists|k: int| 0 <= k < starts@.len() && starts@[k] == x by {
                if x <= i {
                    let k = choose|k: int| 0 <= k < old_starts.len() && old_starts[k] == x;
                    assert(starts@[k] == x);
                } else {
                    assert(text@[x - 1] == '\n');
                    assert(starts@[starts@.len() - 1] == x);
                }
            }
            assert forall|k: int| 0 <= k < starts@.len() implies line_start(text@, #[trigger] starts@[k] as int) && starts@[k] <= i + 1 by {
                if k < old_starts.len() {
                    assert(starts@[k] == old_starts[k]);
                }
            }
        }
        i += 1;
    }
    let mut k1: usize = 0;
    while k1 < starts.len()
        invariant
            k1 <= starts@.len(),
            n == text@.len(),
            forall|k: int| 0 <= k < starts@.len() ==> line_start(text@, #[trigger] starts@[k] as int),
            forall|k: int| 0 <= k < starts@.len() ==> #[trigger] starts@[k] <= n,
            forall|x: int| 0 <= x <= n && #[trigger] line_start(text@, x) ==> exists|k: int| 0 <= k < starts@.len() && starts@[k] == x,
            forall|a: int, c: int| 0 <= a < k1 && 0 <= c < starts@.len() && nonblank_from(text@, starts@[a] as int)
                ==> #[trigger] fits(text@, starts@[c] as int, run_bytes(text@, #[trigger] starts@[a] as int)),
        decreases starts@.len() - k1,
    {
        let (b, nb) = indent_of(text, n, starts[k1]);
        if nb {
            let mut k2: usize = 0;
            while k2 < starts.len()
                invariant
                    k2 <= starts@.len(),
                    k1 < starts@.len(),
                    n == text@.len(),
                    b == run_bytes(text@, starts@[k1 as int] as int),
                    nonblank_from(text@, starts@[k1 as int] as int),
                    forall|k: int| 0 <= k < starts@.len() ==> line_start(text@, #[trigger] starts@[k] as int),
                    forall|k: int| 0 <= k < starts@.len() ==> #[trigger] starts@[k] <= n,
                    forall|c: int| 0 <= c < k2 ==> #[trigger] fits(text@, starts@[c] as int, run_bytes(text@, starts@[k1 as int] as int)),
                decreases starts@.len() - k2,
            {
                if !fits_at(text, n, starts[k2], b) {
                    proof {
                        let s1 = starts@[k1 as int] as int;
                        let s2 = starts@[k2 as int] as int;
                        assert(line_start(text@, s1));
                        assert(line_start(text@, s2));
                        assert(!fits(text@, s2, run_bytes(text@, s1)));
                    }
                    return false;
                }
                k2 += 1;
            }
        }
        k1 += 1;
    }
    proof {
        assert forall|s1: int, s2: int| #![trigger line_start(text@, s1), line_start(text@, s2)]
            line_start(text@, s1) && line_start(text@, s2) && nonblank_from(text@, s1) implies fits(text@, s2, run_bytes(text@, s1)) by {
            let a = choose|k: int| 0 <= k < starts@.len() && starts@[k] == s1;
            let c = choose|k: int| 0 <= k < starts@.len() && starts@[k] == s2;
            assert(fits(text@, starts@[c] as int, run_bytes(text@, starts@[a] as int)));
        }
    }
    true
}

/// What `graphql_parser::parse_schema` makes of a schema text, as the gateway
/// reads it; none where the text does not parse.
pub uninterp spec fn parsed_schema(text: Seq<char>) -> Option<Seq<DefinitionV>>;

/// Calls `graphql_parser::parse_schema` and keeps, of each definition, whether
/// it is a schema definition and, for one, its directives with their
/// arguments (a string argument by its text). The contract claims only that
/// the outcome is a function of the text: `parsed_schema` of it, none exactly
/// where the parser returns an error. What the parser accepts is not stated.
/// Texts whose indents could cut a line inside a character are left out
/// (`clean_indents`): on a block string the parser cuts every line after the
/// smallest indent, in bytes, and panics where that falls inside a character.
#[verifier::external_body]
fn parse_schema(text: &str) -> (r: Result<Vec<Definition>, graphql_parser::schema::ParseError>)
    requires
        clean_indents(text@),
    ensures
        match r {
            Ok(defs) => parsed_schema(text@) == Some(definitions_view(defs@)),
            Err(_) => parsed_schema(text@) is None,
        },
{
    let doc = gs::parse_schema::<String>(text)?;
    Ok(doc.definitions.into_iter().map(|d| match d {
        gs::Definition::SchemaDefinition(s) => Definition::Schema(s.directives.into_iter().map(|dir| Directive {
            name: dir.name,
            arguments: dir.arguments.into_iter().map(|(k, v)| (k, match v {
                gs::Value::String(s) => ArgValue::String(s),
                _ => ArgValue::Other,
            })).collect(),
        }).collect()),
        _ => Definition::Other,
    }).collect())
}

/// Why a schema could not be loaded.
pub enum LoadError {
    /// The schema text does not parse.
    SchemaParse,
    /// The schema has no schema definition, or a `graph` directive of it is
    /// malformed.
    ServiceList,
}

/// The schema text loads: it parses, and its services can be read.
pub open spec fn schema_loads(text: Seq<char>) -> bool {
    &&& parsed_schema(text) is Some
    &&& service_list_spec(parsed_schema(text).unwrap()) is Some
}

/// The gateway for one federated schema.
pub struct Stargate {
    service_list: ServiceList,
    pub schema: String,
}

impl Stargate {
    /// The schema text of the gateway.
    pub closed spec fn schema_text(&self) -> Seq<char> {
        self.schema@
    }

    /// The services of the gateway, each name with its URL.
    pub closed spec fn services(&self) -> Seq<(Seq<char>, Seq<char>)> {
        self.service_list@
    }

    /// Loads a schema: parses it and reads its services; the error says which
    /// of the two failed.
    pub fn try_new(schema: &str) -> (r: Result<Stargate, LoadError>)
        requires
            clean_indents(schema@),
        ensures
            match r {
                Ok(s) => schema_loads(schema@) && s.schema_text() == schema@
                    && Some(s.services()) == service_list_spec(parsed_schema(schema@).unwrap())
                    && keys_unique(s.services()),
                Err(LoadError::SchemaParse) => parsed_schema(schema@) is None,
                Err(LoadError::ServiceList) => parsed_schema(schema@) is Some
                    && service_list_spec(parsed_schema(schema@).unwrap()) is None,
            },
    {
        match parse_schema(schema) {
            Err(_) => Err(LoadError::SchemaParse),
            Ok(defs) => match try_get_service_list(&defs) {
                None => Err(LoadError::ServiceList),
                Some(_) => Ok(Stargate::new(schema)),
            },
        }
    }

    /// Loads a schema that parses and whose services can be read.
    pub fn new(schema: &str) -> (r: Stargate)
        requires
            clean_indents(schema@),
            schema_loads(schema@),
        ensures
            r.schema_text() == schema@,
            Some(r.services()) == service_list_spec(parsed_schema(schema@).unwrap()),
            keys_unique(r.services()),
    {
        match parse_schema(schema) {
            Ok(defs) => {
                let list = match try_get_service_list(&defs) {
                    Some(list) => list,
                    None => {
                        proof {
                            assert(false);
                        }
                        return Stargate { service_list: ServiceList::empty(), schema: schema.to_owned() };
                    },
                };
                Stargate { service_list: list, schema: schema.to_owned() }
            },
            Err(_) => {
                proof {
                    assert(false);
                }
                Stargate { service_list: ServiceList::empty(), schema: schema.to_owned() }
            },
        }
    }

    /// The URL of a service of the gateway; none where it has no such service.
    pub fn service_url(&self, name: &String) -> (r: Option<String>)
        ensures
            match r {
                Some(u) => get_key(self.services(), name@) == Some(u@),
                None => get_key(self.services(), name@) is None,
            },
    {
        self.service_list.url_of(name)
    }

    /// The services of the gateway.
    pub fn service_list(&self) -> (r: &ServiceList)
        ensures
            r@ == self.services(),
    {
        &self.service_list
    }
}

} // verus!

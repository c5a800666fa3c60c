//! Tagging with tree-sitter: a tagging configuration per language, built
//! from the language's grammar and its tag queries, a cache of them by MIME
//! type or by extension, and the tags that a configuration finds in code.
use vstd::prelude::*;
use vstd::hash_map::StringHashMap;
use std::rc::Rc;
use crate::language::{
    Language, mime_language, extension_language, language_extensions, language_for_mime,
    language_for_extension, extensions_of, lemma_extensions_agree, lemma_extension_group, str_equal,
};

verus! {

#[verifier::external_type_specification]
#[verifier::external_body]
pub struct ExTagsConfiguration(tree_sitter_tags::TagsConfiguration);

#[verifier::external_type_specification]
#[verifier::external_body]
pub struct ExTagsError(tree_sitter_tags::Error);

/// Whether `tree_sitter_tags::TagsConfiguration::new` accepts the grammar of
/// a language with these tag and locals queries.
pub uninterp spec fn configuration_builds(language: Language, tags_query: Seq<char>, locals_query: Seq<char>) -> bool;

/// The tag query that a grammar crate ships (`TAGS_QUERY`).
pub uninterp spec fn grammar_tags_query(language: Language) -> Seq<char>;

/// The locals query that a grammar crate ships (`LOCALS_QUERY`).
pub uninterp spec fn grammar_locals_query(language: Language) -> Seq<char>;

/// Calls `tree_sitter_tags::TagsConfiguration::new` with the grammar of the
/// language (from its tree-sitter grammar crate). Claims that whether it
/// succeeds depends on the language and the two queries alone.
#[verifier::external_body]
fn build_configuration(language: Language, tags_query: &str, locals_query: &str) -> (r: Result<
    tree_sitter_tags::TagsConfiguration,
    tree_sitter_tags::Error,
>)
    ensures
        r is Ok <==> configuration_builds(language, tags_query@, locals_query@),
{
    let grammar = match language {
        Language::Rust => tree_sitter_rust::LANGUAGE,
        Language::Cpp => tree_sitter_cpp::LANGUAGE,
        Language::JavaScript => tree_sitter_javascript::LANGUAGE,
        Language::Python => tree_sitter_python::LANGUAGE,
    };
    tree_sitter_tags::TagsConfiguration::new(grammar.into(), tags_query, locals_query)
}

/// Reads `TAGS_QUERY` of the JavaScript or the Python grammar crate.
#[verifier::external_body]
fn shipped_tags_query(language: Language) -> (r: &'static str)
    requires
        language == Language::JavaScript || language == Language::Python,
    ensures
        r@ == grammar_tags_query(language),
{
    match language {
        Language::JavaScript => tree_sitter_javascript::TAGS_QUERY,
        _ => tree_sitter_python::TAGS_QUERY,
    }
}

/// Reads `LOCALS_QUERY` of the JavaScript grammar crate.
#[verifier::external_body]
fn shipped_locals_query(language: Language) -> (r: &'static str)
    requires
        language == Language::JavaScript,
    ensures
        r@ == grammar_locals_query(language),
{
    tree_sitter_javascript::LOCALS_QUERY
}

/// The tag queries of Rust and C++, read from the project's query files
/// (`None` where a file could not be read).
pub struct QueryFiles {
    pub rust: Option<String>,
    pub cpp: Option<String>,
}

impl QueryFiles {
    pub open spec fn rust_text(&self) -> Option<Seq<char>> {
        match self.rust {
            Some(s) => Some(s@),
            None => None,
        }
    }

    pub open spec fn cpp_text(&self) -> Option<Seq<char>> {
        match self.cpp {
            Some(s) => Some(s@),
            None => None,
        }
    }
}

/// The tag and locals queries of a language: Rust and C++ use the query
/// files and no locals query, JavaScript uses both queries of its grammar
/// crate, Python the tag query of its grammar crate and no locals query.
pub open spec fn language_queries(language: Language, files: QueryFiles) -> Option<(Seq<char>, Seq<char>)> {
    match language {
        Language::Rust => match files.rust_text() {
            Some(t) => Some((t, ""@)),
            None => None,
        },
        Language::Cpp => match files.cpp_text() {
            Some(t) => Some((t, ""@)),
            None => None,
        },
        Language::JavaScript => Some(
            (grammar_tags_query(Language::JavaScript), grammar_locals_query(Language::JavaScript)),
        ),
        Language::Python => Some((grammar_tags_query(Language::Python), ""@)),
    }
}

/// Why no tagging configuration could be made for a language.
#[derive(Clone, Copy, Debug, PartialEq, Eq, Structural)]
pub enum ConfigError {
    /// The query file of the language could not be read.
    MissingQueries(Language),
    /// tree-sitter refused the grammar and queries of the language.
    Invalid(Language),
}

/// A tagging configuration for one language.
pub struct Configuration {
    language: Language,
    tags_query: String,
    locals_query: String,
    inner: tree_sitter_tags::TagsConfiguration,
}

/// How a configuration for a language comes out: `Ok` exactly when the
/// language's queries are at hand and tree-sitter accepts them.
pub open spec fn configuration_outcome(language: Language, files: QueryFiles) -> Result<
    (Seq<char>, Seq<char>),
    ConfigError,
> {
    match language_queries(language, files) {
        None => Err(ConfigError::MissingQueries(language)),
        Some(q) => if configuration_builds(language, q.0, q.1) {
            Ok(q)
        } else {
            Err(ConfigError::Invalid(language))
        },
    }
}

impl Configuration {
    pub closed spec fn language(&self) -> Language {
        self.language
    }

    pub closed spec fn tags_query(&self) -> Seq<char> {
        self.tags_query@
    }

    pub closed spec fn locals_query(&self) -> Seq<char> {
        self.locals_query@
    }

    /// The configuration is the one made for its language from these query
    /// files.
    pub open spec fn made_from(&self, files: QueryFiles) -> bool {
        configuration_outcome(self.language(), files) == Ok::<_, ConfigError>(
            (self.tags_query(), self.locals_query()),
        )
    }

    /// The language this configuration tags.
    pub fn get_language(&self) -> (l: Language)
        ensures
            l == self.language(),
    {
        self.language
    }

    /// Makes the tagging configuration of a language.
    pub fn for_language(language: Language, files: &QueryFiles) -> (r: Result<Configuration, ConfigError>)
        ensures
            match r {
                Ok(c) => c.language() == language && c.made_from(*files),
                Err(e) => configuration_outcome(language, *files) == Err::<(Seq<char>, Seq<char>), _>(
                    e,
                ),
            },
    {
        let (tags_query, locals_query): (String, String) = match language {
            Language::Rust => match &files.rust {
                Some(t) => (t.clone(), String::new()),
                None => {
                    return Err(ConfigError::MissingQueries(language));
                },
            },
            Language::Cpp => match &files.cpp {
                Some(t) => (t.clone(), String::new()),
                None => {
                    return Err(ConfigError::MissingQueries(language));
                },
            },
            Language::JavaScript => (
                shipped_tags_query(language).to_owned(),
                shipped_locals_query(language).to_owned(),
            ),
            Language::Python => (shipped_tags_query(language).to_owned(), String::new()),
        };
        proof {
            reveal_strlit("");
            assert(""@ =~= Seq::<char>::empty());
        }
        match build_configuration(language, tags_query.as_str(), locals_query.as_str()) {
            Ok(inner) => Ok(Configuration { language, tags_query, locals_query, inner }),
            Err(_) => Err(ConfigError::Invalid(language)),
        }
    }
}

/// A tag that tree-sitter found: where its name is in the code (bytes),
/// where the name starts and ends (0-based rows and columns), whether it
/// defines or references the name, its syntax kind, and its documentation.
#[derive(Clone, Debug)]
pub struct SourceTag {
    pub name_start: usize,
    pub name_end: usize,
    pub start_row: usize,
    pub start_column: usize,
    pub end_row: usize,
    pub end_column: usize,
    pub is_definition: bool,
    pub syntax_type_id: u32,
    pub docs: Option<String>,
}

/// A found tag as plain values, in the order of the fields of `SourceTag`.
pub type SourceTagView = (usize, usize, usize, usize, usize, usize, bool, u32, Option<Seq<char>>);

impl View for SourceTag {
    type V = SourceTagView;

    open spec fn view(&self) -> SourceTagView {
        (
            self.name_start,
            self.name_end,
            self.start_row,
            self.start_column,
            self.end_row,
            self.end_column,
            self.is_definition,
            self.syntax_type_id,
            match self.docs {
                Some(d) => Some(d@),
                None => None,
            },
        )
    }
}

/// The tags that `tree_sitter_tags::TagsContext::generate_tags` yields for
/// code with the configuration of a language and queries, up to the first
/// error, and whether an error ended them.
pub uninterp spec fn tags_found(language: Language, tags_query: Seq<char>, locals_query: Seq<char>, code: Seq<u8>) -> (
    Seq<SourceTagView>,
    bool,
);

impl Configuration {
    /// Calls `tree_sitter_tags::TagsContext::generate_tags` with a new
    /// context and this configuration, and collects the tags up to the
    /// first error. Claims that the result depends on the configuration's
    /// language and queries and on the code alone.
    #[verifier::external_body]
    pub(crate) fn generate_tags(&self, code: &[u8]) -> (r: (Vec<SourceTag>, bool))
        ensures
            (r.0@.map_values(|t: SourceTag| t@), r.1) == tags_found(
                self.language(),
                self.tags_query(),
                self.locals_query(),
                code@,
            ),
    {
        let mut context = tree_sitter_tags::TagsContext::new();
        let mut found = Vec::new();
        let Ok((tags, _)) = context.generate_tags(&self.inner, code, None) else { return (found, true) };
        for tag in tags {
            let Ok(t) = tag else { return (found, true) };
            let (s, e) = (t.span.start, t.span.end);
            found.push(SourceTag { name_start: t.name_range.start, name_end: t.name_range.end, start_row: s.row,
                start_column: s.column, end_row: e.row, end_column: e.column, is_definition: t.is_definition,
                syntax_type_id: t.syntax_type_id, docs: t.docs });
        }
        (found, false)
    }
}

/// The capture names of the query that tree-sitter compiles for a
/// configuration of a language with these queries, in capture order.
pub uninterp spec fn capture_names_of(language: Language, tags_query: Seq<char>, locals_query: Seq<char>) -> Seq<
    Seq<char>,
>;

/// `s` begins with `p`.
pub open spec fn starts_with(s: Seq<char>, p: Seq<char>) -> bool {
    p.len() <= s.len() && s.take(p.len() as int) == p
}

/// `s` without every leading repetition of `p`, as `str::trim_start_matches`
/// gives it.
pub open spec fn strip_all(s: Seq<char>, p: Seq<char>) -> Seq<char>
    decreases s.len(),
{
    if p.len() > 0 && starts_with(s, p) {
        strip_all(s.skip(p.len() as int), p)
    } else {
        s
    }
}

/// The captures that tree-sitter-tags gives a meaning of their own and
/// that declare no syntax kind.
pub open spec fn is_special_capture(c: Seq<char>) -> bool {
    c == "name"@ || c == "ignore"@ || c == "doc"@ || c == "local.scope"@ || c == "local.definition"@
        || c == "local.reference"@ || c == ""@
}

/// The syntax kind that a capture declares: the rest of a capture named
/// `definition.*` or `reference.*`, when it holds no NUL character.
pub open spec fn capture_kind(c: Seq<char>) -> Option<Seq<char>> {
    if is_special_capture(c) {
        None
    } else {
        let kind = if starts_with(c, "definition."@) {
            Some(strip_all(c, "definition."@))
        } else if starts_with(c, "reference."@) {
            Some(strip_all(c, "reference."@))
        } else {
            None
        };
        match kind {
            Some(k) => if k.contains('\0') {
                None
            } else {
                Some(k)
            },
            None => None,
        }
    }
}

/// The syntax kinds of a configuration, numbered in the order in which
/// captures first declare them: syntax kind `i` has id `i`.
pub open spec fn kinds_of(captures: Seq<Seq<char>>) -> Seq<Seq<char>>
    decreases captures.len(),
{
    if captures.len() == 0 {
        Seq::empty()
    } else {
        let prev = kinds_of(captures.drop_last());
        match capture_kind(captures.last()) {
            Some(k) => if prev.contains(k) {
                prev
            } else {
                prev.push(k)
            },
            None => prev,
        }
    }
}

/// Whether `s` begins with `p`.
fn begins_with(s: &str, p: &str) -> (r: bool)
    ensures
        r == starts_with(s@, p@),
{
    let n = s.unicode_len();
    let m = p.unicode_len();
    if m > n {
        return false;
    }
    let mut i: usize = 0;
    while i < m
        invariant
            n == s@.len(),
            m == p@.len(),
            m <= n,
            i <= m,
            forall|j: int| 0 <= j < i ==> s@[j] == p@[j],
        decreases m - i,
    {
        if s.get_char(i) != p.get_char(i) {
            assert(s@.take(m as int)[i as int] != p@[i as int]);
            return false;
        }
        i = i + 1;
    }
    assert(s@.take(m as int) =~= p@);
    true
}

/// `s` without every leading repetition of `p`.
fn strip_prefixes<'a>(s: &'a str, p: &str) -> (r: &'a str)
    ensures
        r@ == strip_all(s@, p@),
{
    let m = p.unicode_len();
    if m == 0 {
        return s;
    }
    let mut rest = s;
    while begins_with(rest, p)
        invariant
            m == p@.len(),
            m > 0,
            strip_all(s@, p@) == strip_all(rest@, p@),
        decreases rest@.len(),
    {
        let n = rest.unicode_len();
        rest = rest.substring_char(m, n);
    }
    rest
}

/// Whether `s` holds a NUL character.
fn has_nul(s: &str) -> (r: bool)
    ensures
        r == s@.contains('\0'),
{
    let n = s.unicode_len();
    let mut i: usize = 0;
    while i < n
        invariant
            n == s@.len(),
            i <= n,
            forall|j: int| 0 <= j < i ==> s@[j] != '\0',
        decreases n - i,
    {
        if s.get_char(i) == '\0' {
            return true;
        }
        i = i + 1;
    }
    false
}

/// The syntax kind that a capture declares, if any.
fn kind_of_capture(c: &str) -> (r: Option<&str>)
    ensures
        match r {
            Some(k) => capture_kind(c@) == Some(k@),
            None => capture_kind(c@) is None,
        },
{
    if str_equal(c, "name") || str_equal(c, "ignore") || str_equal(c, "doc") || str_equal(
        c,
        "local.scope",
    ) || str_equal(c, "local.definition") || str_equal(c, "local.reference") || str_equal(c, "") {
        return None;
    }
    let kind = if begins_with(c, "definition.") {
        strip_prefixes(c, "definition.")
    } else if begins_with(c, "reference.") {
        strip_prefixes(c, "reference.")
    } else {
        return None;
    };
    if has_nul(kind) {
        None
    } else {
        Some(kind)
    }
}

impl Configuration {
    /// Reads the capture names of the configuration's query
    /// (`Query::capture_names`).
    #[verifier::external_body]
    fn capture_names(&self) -> (r: Vec<String>)
        ensures
            r@.map_values(|s: String| s@) == capture_names_of(
                self.language(),
                self.tags_query(),
                self.locals_query(),
            ),
    {
        self.inner.query.capture_names().iter().map(|s| s.to_string()).collect()
    }

    /// The syntax kinds of this configuration, by id.
    pub open spec fn syntax_kinds(&self) -> Seq<Seq<char>> {
        kinds_of(capture_names_of(self.language(), self.tags_query(), self.locals_query()))
    }

    /// The number of syntax kinds of this configuration.
    pub fn syntax_type_count(&self) -> (n: usize)
        ensures
            n == self.syntax_kinds().len(),
    {
        let captures = self.capture_names();
        let ghost cs = captures@.map_values(|s: String| s@);
        let mut kinds: Vec<&str> = Vec::new();
        let mut i: usize = 0;
        assert(cs.take(0) =~= Seq::<Seq<char>>::empty());
        while i < captures.len()
            invariant
                cs == captures@.map_values(|s: String| s@),
                cs == capture_names_of(self.language(), self.tags_query(), self.locals_query()),
                i <= captures@.len(),
                kinds@.map_values(|s: &str| s@) == kinds_of(cs.take(i as int)),
            decreases captures@.len() - i,
        {
            assert(cs.take(i + 1).drop_last() =~= cs.take(i as int));
            assert(cs.take(i + 1).last() == captures@[i as int]@);
            let ghost prev = kinds@.map_values(|s: &str| s@);
            match kind_of_capture(captures[i].as_str()) {
                None => {},
                Some(k) => {
                    let mut found = false;
                    let mut j: usize = 0;
                    while j < kinds.len()
                        invariant
                            prev == kinds@.map_values(|s: &str| s@),
                            j <= kinds@.len(),
                            found == exists|jj: int| 0 <= jj < j && prev[jj] == k@,
                        decreases kinds@.len() - j,
                    {
                        assert(prev[j as int] == kinds@[j as int]@);
                        if str_equal(kinds[j], k) {
                            found = true;
                        }
                        assert(found == exists|jj: int| 0 <= jj < j + 1 && prev[jj] == k@) by {
                            if found && !(exists|jj: int| 0 <= jj < j && prev[jj] == k@) {
                                assert(prev[j as int] == k@);
                            }
                        }
                        j = j + 1;
                    }
                    if !found {
                        assert(!prev.contains(k@));
                        kinds.push(k);
                        assert(kinds@.map_values(|s: &str| s@) =~= prev.push(k@));
                    } else {
                        assert(prev.contains(k@));
                    }
                },
            }
            i = i + 1;
        }
        assert(cs.take(i as int) =~= cs);
        kinds.len()
    }

    /// Calls `tree_sitter_tags::TagsConfiguration::syntax_type_name`. Claims
    /// what its source shows: the names of syntax kinds are the kinds that
    /// the captures of the query declare, numbered in the order in which
    /// they first appear; an id past them makes it panic.
    #[verifier::external_body]
    fn syntax_type_name(&self, id: u32) -> (r: &str)
        requires
            id < self.syntax_kinds().len(),
        ensures
            r@ == self.syntax_kinds()[id as int],
    {
        self.inner.syntax_type_name(id)
    }

    /// The name of the syntax kind with this id, if the configuration has
    /// one.
    pub fn syntax_name(&self, id: u32) -> (r: Option<&str>)
        ensures
            r is Some <==> id < self.syntax_kinds().len(),
            r matches Some(n) ==> n@ == self.syntax_kinds()[id as int],
    {
        if (id as usize) < self.syntax_type_count() {
            Some(self.syntax_type_name(id))
        } else {
            None
        }
    }
}

/// What a cache is keyed by.
#[derive(Clone, Copy, Debug, PartialEq, Eq, Structural)]
pub enum KeyKind {
    /// MIME types, as libmagic reports them.
    Mime,
    /// File name extensions, without the dot.
    Extension,
}

/// The language of a key.
pub open spec fn key_language(kind: KeyKind, key: Seq<char>) -> Option<Language> {
    match kind {
        KeyKind::Mime => mime_language(key),
        KeyKind::Extension => extension_language(key),
    }
}

/// The keys under which a new configuration for `key` is cached: the key
/// itself and, keyed by extension, every extension of the key's language.
pub open spec fn key_group(kind: KeyKind, key: Seq<char>, k: Seq<char>) -> bool {
    ||| k == key
    ||| kind == KeyKind::Extension && match extension_language(key) {
        Some(l) => language_extensions(l).contains(k),
        None => false,
    }
}

/// The tagging configurations made so far, by key, so that each is made
/// once. Keyed by extension, one configuration serves all extensions of its
/// language.
pub struct ConfigCache {
    kind: KeyKind,
    files: QueryFiles,
    configs: StringHashMap<Rc<Configuration>>,
}

impl ConfigCache {
    pub closed spec fn kind(&self) -> KeyKind {
        self.kind
    }

    pub closed spec fn files(&self) -> QueryFiles {
        self.files
    }

    /// The cached configurations, by key.
    pub closed spec fn configs(&self) -> Map<Seq<char>, Rc<Configuration>> {
        self.configs@
    }

    /// Whether a configuration is cached for this key.
    pub open spec fn cached(&self, key: Seq<char>) -> bool {
        self.configs().contains_key(key)
    }

    /// The configuration cached for this key.
    pub open spec fn config_of(&self, key: Seq<char>) -> Rc<Configuration> {
        self.configs()[key]
    }

    /// Every cached configuration is the one made for the language of its
    /// key from the cache's query files.
    pub closed spec fn entries_made(&self) -> bool {
        forall|k: Seq<char>|
            #[trigger] self.configs@.contains_key(k) ==> {
                &&& key_language(self.kind, k) == Some(self.configs@[k].language())
                &&& self.configs@[k].made_from(self.files)
            }
    }

    /// Keyed by extension, the extensions of a language are cached all
    /// together, with one configuration, or not at all.
    pub closed spec fn groups_whole(&self) -> bool {
        self.kind == KeyKind::Extension ==> forall|k1: Seq<char>, k2: Seq<char>|
            #[trigger] self.configs@.contains_key(k1) && #[trigger] language_extensions(
                self.configs@[k1].language(),
            ).contains(k2) ==> self.configs@.contains_key(k2) && self.configs@[k2] == self.configs@[k1]
    }

    /// The cache is consistent.
    pub open spec fn wf(&self) -> bool {
        self.entries_made() && self.groups_whole()
    }

    /// An empty cache.
    pub fn new(kind: KeyKind, files: QueryFiles) -> (c: ConfigCache)
        ensures
            c.wf(),
            c.kind() == kind,
            c.files() == files,
            c.configs() == Map::<Seq<char>, Rc<Configuration>>::empty(),
    {
        let c = ConfigCache { kind, files, configs: StringHashMap::new() };
        c
    }

    /// The configuration for the language of `key`: the cached one, or a new
    /// one, which is then cached under `key` (keyed by extension, under
    /// every extension of the language). `Ok(None)` for a MIME type of no
    /// language; keyed by extension, the key must be cached or name a
    /// language. Only a new configuration changes the cache.
    pub fn get(&mut self, key: &str) -> (r: Result<Option<Rc<Configuration>>, ConfigError>)
        requires
            old(self).wf(),
            old(self).kind() == KeyKind::Extension ==> old(self).cached(key@) || extension_language(key@) is Some,
        ensures
            final(self).wf(),
            final(self).kind() == old(self).kind(),
            final(self).files() == old(self).files(),
            match key_language(old(self).kind(), key@) {
                None => r == Ok::<Option<Rc<Configuration>>, ConfigError>(None),
                Some(l) => match configuration_outcome(l, old(self).files()) {
                    Err(e) => r == Err::<Option<Rc<Configuration>>, _>(e),
                    Ok(_) => r matches Ok(Some(c)) && c.language() == l && c.made_from(old(self).files()),
                },
            },
            old(self).cached(key@) ==> r == Ok::<Option<Rc<Configuration>>, ConfigError>(
                Some(old(self).config_of(key@)),
            ) && final(self).configs() == old(self).configs(),
            !old(self).cached(key@) ==> match r {
                Ok(Some(c)) => final(self).configs() == old(self).configs().union_prefer_right(
                    Map::new(|k: Seq<char>| key_group(old(self).kind(), key@, k), |k: Seq<char>| c),
                ),
                _ => final(self).configs() == old(self).configs(),
            },
    {
        match self.configs.get(key) {
            Some(conf) => {
                return Ok(Some(Rc::clone(conf)));
            },
            None => {},
        }
        let language = match self.kind {
            KeyKind::Mime => language_for_mime(key),
            KeyKind::Extension => language_for_extension(key),
        };
        let language = match language {
            Some(l) => l,
            None => {
                return Ok(None);
            },
        };
        let conf = match Configuration::for_language(language, &self.files) {
            Ok(c) => Rc::new(c),
            Err(e) => {
                return Err(e);
            },
        };
        let ghost before = *self;
        match self.kind {
            KeyKind::Mime => {
                self.configs.insert(key.to_owned(), Rc::clone(&conf));
                proof {
                    assert(self.configs@ =~= before.configs@.union_prefer_right(
                        Map::new(|k: Seq<char>| key_group(before.kind, key@, k), |k: Seq<char>| conf),
                    ));
                }
            },
            KeyKind::Extension => {
                self.cache_group(language, &conf);
                proof {
                    lemma_extension_group(key@, language);
                    assert(self.configs@ =~= before.configs@.union_prefer_right(
                        Map::new(|k: Seq<char>| key_group(before.kind, key@, k), |k: Seq<char>| conf),
                    ));
                    assert forall|k1: Seq<char>, k2: Seq<char>|
                        #[trigger] self.configs@.contains_key(k1) && #[trigger] language_extensions(
                            self.configs@[k1].language(),
                        ).contains(k2) implies self.configs@.contains_key(k2) && self.configs@[k2]
                        == self.configs@[k1] by {
                        let group = language_extensions(language);
                        if !group.contains(k1) {
                            let l1 = before.configs@[k1].language();
                            assert(before.configs@.contains_key(k1));
                            if l1 == language {
                                assert(before.configs@.contains_key(key@));
                            }
                            lemma_extension_group(k2, l1);
                            lemma_extension_group(k2, language);
                            assert(!group.contains(k2));
                            assert(before.configs@.contains_key(k2));
                        }
                    }
                }
            },
        }
        Ok(Some(conf))
    }

    /// Caches a configuration under every extension of its language.
    fn cache_group(&mut self, language: Language, conf: &Rc<Configuration>)
        requires
            old(self).entries_made(),
            old(self).kind() == KeyKind::Extension,
            conf.language() == language,
            conf.made_from(old(self).files()),
        ensures
            final(self).entries_made(),
            final(self).kind() == old(self).kind(),
            final(self).files() == old(self).files(),
            final(self).configs() == old(self).configs().union_prefer_right(
                Map::new(|k: Seq<char>| language_extensions(language).contains(k), |k: Seq<char>| *conf),
            ),
    {
        let exts = extensions_of(language);
        let ghost group = language_extensions(language);
        let mut i: usize = 0;
        while i < exts.len()
            invariant
                self.entries_made(),
                self.kind() == KeyKind::Extension,
                self.files() == old(self).files(),
                conf.language() == language,
                conf.made_from(self.files()),
                exts@.map_values(|s: &str| s@) == group,
                group == language_extensions(language),
                i <= exts@.len(),
                self.configs@ == old(self).configs@.union_prefer_right(
                    Map::new(|k: Seq<char>| group.take(i as int).contains(k), |k: Seq<char>| *conf),
                ),
            decreases exts@.len() - i,
        {
            proof {
                lemma_extensions_agree(language, i as int);
            }
            assert(exts@[i as int]@ == group[i as int]);
            let ghost prev = self.configs@;
            self.configs.insert(exts[i].to_owned(), Rc::clone(conf));
            proof {
                let t0 = group.take(i as int);
                let t1 = group.take(i + 1);
                assert forall|k: Seq<char>| t1.contains(k) <==> (t0.contains(k) || k == group[i as int]) by {
                    if t1.contains(k) {
                        let j = choose|j: int| 0 <= j < t1.len() && t1[j] == k;
                        if j < i {
                            assert(t0[j] == k);
                        }
                    }
                    if t0.contains(k) {
                        let j = choose|j: int| 0 <= j < t0.len() && t0[j] == k;
                        assert(t1[j] == k);
                    }
                    if k == group[i as int] {
                        assert(t1[i as int] == k);
                    }
                }
                assert(self.configs@ =~= old(self).configs@.union_prefer_right(
                    Map::new(|k: Seq<char>| group.take(i + 1).contains(k), |k: Seq<char>| *conf),
                ));
            }
            i = i + 1;
        }
        assert(group.take(i as int) =~= group);
    }
}

/// Law of the cache, keyed by extension: the extensions of a language are
/// cached all together, with one configuration, or not at all; so any
/// extension of a cached language gives the same configuration.
pub proof fn lemma_groups_shared(cache: &ConfigCache, k1: Seq<char>, k2: Seq<char>)
    requires
        cache.wf(),
        cache.kind() == KeyKind::Extension,
        cache.cached(k1),
        extension_language(k2) == extension_language(k1),
    ensures
        cache.cached(k2),
        cache.config_of(k2) == cache.config_of(k1),
{
    let l = cache.configs@[k1].language();
    lemma_extension_group(k2, l);
    assert(language_extensions(l).contains(k2));
}

} // verus!

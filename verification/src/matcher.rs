//! The predicate that decides, line by line, what a scan selects.

use vstd::prelude::*;
use vstd::string::*;
use crate::error::ScanError;

verus! {

/// `regex::Regex`, a compiled expression. Nothing of its inside is known here.
#[verifier::external_type_specification]
#[verifier::external_body]
pub struct ExRegex(regex::Regex);

/// `regex::Error`, what the engine says of an expression that it refuses.
#[verifier::external_type_specification]
#[verifier::external_body]
pub struct ExRegexError(regex::Error);

/// Whether `RegexBuilder::build` accepts `source` when case folding is set to `fold_case`.
pub uninterp spec fn regex_compiles(source: Seq<char>, fold_case: bool) -> bool;

/// Whether an engine compiled from `source` with case folding set to `fold_case`
/// finds a match anywhere in `haystack`.
pub uninterp spec fn regex_finds(source: Seq<char>, fold_case: bool, haystack: Seq<char>) -> bool;

/// The expression that an engine was compiled from, which `Regex::as_str` gives back.
pub uninterp spec fn regex_source(engine: regex::Regex) -> Seq<char>;

/// Whether an engine was compiled with case folding on. Every other setting of the builder is
/// left as it comes: this library makes its engines in `compile_regex` alone.
pub uninterp spec fn regex_folds_case(engine: regex::Regex) -> bool;

/// The lowercase form that `str::to_lowercase` gives to `text`.
pub uninterp spec fn lowercase_of(text: Seq<char>) -> Seq<char>;

/// How the pattern text of a configuration is read.
#[derive(Clone, Copy, Debug, PartialEq, Eq, Structural)]
pub enum MatchMode {
    /// The pattern is a piece of text to find as it stands.
    Literal,
    /// The pattern is a regular expression.
    Regex,
}

/// What a scan looks for. The fields are read once, when the predicate is built.
#[derive(Clone, Debug, PartialEq, Eq)]
pub struct MatchConfig {
    pub pattern: String,
    pub mode: MatchMode,
    pub case_insensitive: bool,
    pub whole_word: bool,
    pub invert: bool,
}

/// What a `MatchConfig` stands for in contracts.
pub struct MatchSpec {
    pub pattern: Seq<char>,
    pub mode: MatchMode,
    pub case_insensitive: bool,
    pub whole_word: bool,
    pub invert: bool,
}

impl View for MatchConfig {
    type V = MatchSpec;

    open spec fn view(&self) -> MatchSpec {
        MatchSpec {
            pattern: self.pattern@,
            mode: self.mode,
            case_insensitive: self.case_insensitive,
            whole_word: self.whole_word,
            invert: self.invert,
        }
    }
}

/// `needle` stands in `hay` at offset `at`.
pub open spec fn occurs_at(hay: Seq<char>, needle: Seq<char>, at: int) -> bool {
    0 <= at && at + needle.len() <= hay.len() && hay.subrange(at, at + needle.len()) == needle
}

/// `needle` stands somewhere in `hay`.
pub open spec fn contains_text(hay: Seq<char>, needle: Seq<char>) -> bool {
    exists|at: int| occurs_at(hay, needle, at)
}

/// The characters that mean something to the regex engine.
pub open spec fn is_meta_char(c: char) -> bool {
    c == '\\' || c == '.' || c == '+' || c == '*' || c == '?' || c == '(' || c == ')' || c == '|'
        || c == '[' || c == ']' || c == '{' || c == '}' || c == '^' || c == '$' || c == '#'
        || c == '&' || c == '-' || c == '~'
}

/// `text` with a backslash before each character that the engine would read as an operator.
pub open spec fn escaped(text: Seq<char>) -> Seq<char>
    decreases text.len(),
{
    if text.len() == 0 {
        Seq::empty()
    } else if is_meta_char(text.last()) {
        escaped(text.drop_last()).push('\\').push(text.last())
    } else {
        escaped(text.drop_last()).push(text.last())
    }
}

/// What is put before a pattern to hold its matches to whole words: `\b(?:`.
pub open spec fn word_prefix() -> Seq<char> {
    seq!['\\', 'b', '(', '?', ':']
}

/// What is put after a pattern to hold its matches to whole words: `)\b`.
pub open spec fn word_suffix() -> Seq<char> {
    seq![')', '\\', 'b']
}

impl MatchSpec {
    /// The regex engine decides: the pattern is a regular expression, or whole words are asked
    /// for, which only the engine can tell.
    pub open spec fn uses_engine(self) -> bool {
        self.mode == MatchMode::Regex || self.whole_word
    }

    /// The expression handed to the engine: the pattern itself, or its escaped form where it
    /// is literal text, between word boundaries where whole words are asked for.
    pub open spec fn engine_source(self) -> Seq<char> {
        let core = if self.mode == MatchMode::Regex {
            self.pattern
        } else {
            escaped(self.pattern)
        };
        if self.whole_word {
            word_prefix() + core + word_suffix()
        } else {
            core
        }
    }

    /// The text that a literal search looks for: the pattern, in lowercase where case is ignored.
    pub open spec fn needle(self) -> Seq<char> {
        if self.case_insensitive {
            lowercase_of(self.pattern)
        } else {
            self.pattern
        }
    }

    /// A predicate can be built: a pattern that is a regular expression compiles as it
    /// stands, and what goes to the engine compiles. Literal text that is not held to whole
    /// words goes nowhere and can always be built.
    pub open spec fn compiles(self) -> bool {
        &&& self.mode == MatchMode::Regex ==> regex_compiles(self.pattern, self.case_insensitive)
        &&& self.uses_engine() ==> regex_compiles(self.engine_source(), self.case_insensitive)
    }

    /// The pattern is found in `line`, before inversion.
    pub open spec fn finds(self, line: Seq<char>) -> bool {
        if self.uses_engine() {
            regex_finds(self.engine_source(), self.case_insensitive, line)
        } else if self.case_insensitive {
            contains_text(lowercase_of(line), self.needle())
        } else {
            contains_text(line, self.needle())
        }
    }

    /// The verdict on `line`: found, or not found where the sense is inverted.
    pub open spec fn selects(self, line: Seq<char>) -> bool {
        self.finds(line) != self.invert
    }

    /// The same configuration with the sense of matching set to `invert`.
    pub open spec fn with_invert(self, invert: bool) -> MatchSpec {
        MatchSpec { invert, ..self }
    }
}

/// Inverting a configuration turns its verdict on every line into the opposite, and changes
/// nothing about whether a predicate can be built from it.
pub proof fn lemma_invert_is_complement(config: MatchSpec, line: Seq<char>)
    ensures
        config.with_invert(true).selects(line) == !config.with_invert(false).selects(line),
        config.with_invert(!config.invert).selects(line) == !config.selects(line),
        config.with_invert(true).compiles() == config.with_invert(false).compiles(),
{
}

/// `str::contains` with a string as the pattern: true when the needle is a sub-slice of the
/// haystack.
#[verifier::external_body]
fn text_contains(hay: &str, needle: &str) -> (found: bool)
    ensures
        found == contains_text(hay@, needle@),
{
    hay.contains(needle)
}

/// `str::to_lowercase`: the lowercase form of the text, which depends on the text alone.
#[verifier::external_body]
fn fold_case(text: &str) -> (folded: String)
    ensures
        folded@ == lowercase_of(text@),
{
    text.to_lowercase()
}

/// `regex::escape`: copies the text and puts a backslash before each of the engine's
/// meta characters.
#[verifier::external_body]
fn escape_pattern(text: &str) -> (quoted: String)
    ensures
        quoted@ == escaped(text@),
{
    regex::escape(text)
}

/// `RegexBuilder::new`, `case_insensitive` and `build`: compiles `source`. Whether that
/// succeeds depends on the source and the flag alone; the engine that comes back remembers both.
#[verifier::external_body]
fn compile_regex(source: &str, fold_case: bool) -> (compiled: Result<regex::Regex, regex::Error>)
    ensures
        compiled is Ok <==> regex_compiles(source@, fold_case),
        compiled matches Ok(engine) ==> regex_source(engine) == source@ && regex_folds_case(engine)
            == fold_case,
{
    regex::RegexBuilder::new(source).case_insensitive(fold_case).build()
}

/// `Regex::is_match`: whether the engine finds a match anywhere in the haystack. For an engine
/// that `compile_regex` made, that depends on the expression, the case flag and the haystack
/// alone.
#[verifier::external_body]
fn engine_finds(engine: &regex::Regex, haystack: &str) -> (found: bool)
    ensures
        found == regex_finds(regex_source(*engine), regex_folds_case(*engine), haystack@),
{
    engine.is_match(haystack)
}

/// The `Display` text of a `regex::Error`. Nothing is claimed of it.
#[verifier::external_body]
fn error_text(error: &regex::Error) -> (text: String) {
    error.to_string()
}

/// How a predicate looks for its pattern.
enum Matcher {
    /// By substring search for `needle`, which is in lowercase where case is ignored.
    Literal { needle: String },
    /// By the regex engine.
    Engine { regex: regex::Regex },
}

/// The compiled form of a `MatchConfig`: a pure test on one line of text. It holds no state
/// that evaluation changes, so any number of workers may share one by reference.
pub struct Predicate {
    config: MatchConfig,
    matcher: Matcher,
}

impl View for Predicate {
    type V = MatchSpec;

    closed spec fn view(&self) -> MatchSpec {
        self.config@
    }
}

/// The expression for the engine, as text.
fn engine_source_text(config: &MatchConfig) -> (source: String)
    ensures
        source@ == config@.engine_source(),
{
    let core: String = match config.mode {
        MatchMode::Regex => config.pattern.clone(),
        MatchMode::Literal => escape_pattern(config.pattern.as_str()),
    };
    if config.whole_word {
        let mut wrapped: String = String::from_str("\\b(?:");
        wrapped.append(core.as_str());
        wrapped.append(")\\b");
        proof {
            reveal_strlit("\\b(?:");
            reveal_strlit(")\\b");
            assert("\\b(?:"@ =~= word_prefix());
            assert(")\\b"@ =~= word_suffix());
        }
        wrapped
    } else {
        core
    }
}

impl Predicate {
    #[verifier::type_invariant]
    spec fn well_formed(self) -> bool {
        match self.matcher {
            Matcher::Literal { needle } => !self.config@.uses_engine() && needle@
                == self.config@.needle(),
            Matcher::Engine { regex } => self.config@.uses_engine() && regex_source(regex)
                == self.config@.engine_source() && regex_folds_case(regex)
                == self.config.case_insensitive,
        }
    }

    /// Builds the predicate of `config`. This fails exactly when the engine refuses the
    /// pattern, read as a regular expression, or the expression made of it for whole words.
    pub fn build(config: MatchConfig) -> (built: Result<Predicate, ScanError>)
        ensures
            built is Ok <==> config@.compiles(),
            built matches Ok(predicate) ==> predicate@ == config@,
            built matches Err(error) ==> error is InvalidPattern,
    {
        if matches!(config.mode, MatchMode::Regex) || config.whole_word {
            if matches!(config.mode, MatchMode::Regex) && config.whole_word {
                // Between word boundaries a malformed pattern could turn into a well-formed
                // one with another meaning, so the pattern has to compile by itself first.
                match compile_regex(config.pattern.as_str(), config.case_insensitive) {
                    Ok(_) => {},
                    Err(error) => {
                        return Err(ScanError::InvalidPattern { message: error_text(&error) });
                    },
                }
            }
            let source: String = engine_source_text(&config);
            let compiled = compile_regex(source.as_str(), config.case_insensitive);
            Predicate::from_compiled(config, compiled)
        } else {
            let needle: String = if config.case_insensitive {
                fold_case(config.pattern.as_str())
            } else {
                config.pattern.clone()
            };
            Ok(Predicate { config, matcher: Matcher::Literal { needle } })
        }
    }

    /// Finishes a predicate that needs the engine, given what compiling its expression gave:
    /// the engine is kept, an error becomes `InvalidPattern` with the engine's message.
    pub fn from_compiled(config: MatchConfig, compiled: Result<regex::Regex, regex::Error>) -> (built:
        Result<Predicate, ScanError>)
        requires
            config@.uses_engine(),
            compiled matches Ok(engine) ==> regex_source(engine) == config@.engine_source()
                && regex_folds_case(engine) == config.case_insensitive,
        ensures
            built is Ok <==> compiled is Ok,
            built matches Ok(predicate) ==> predicate@ == config@,
            built matches Err(error) ==> error is InvalidPattern,
    {
        match compiled {
            Ok(regex) => Ok(Predicate { config, matcher: Matcher::Engine { regex } }),
            Err(error) => Err(ScanError::InvalidPattern { message: error_text(&error) }),
        }
    }

    /// The verdict on a line, given whether the pattern was found in it.
    pub fn verdict(&self, found: bool) -> (selected: bool)
        ensures
            selected == (found != self@.invert),
    {
        found != self.config.invert
    }

    /// Whether the predicate selects `text`.
    pub fn evaluate(&self, text: &str) -> (selected: bool)
        ensures
            selected == self@.selects(text@),
    {
        proof {
            use_type_invariant(self);
        }
        let found: bool = match &self.matcher {
            Matcher::Engine { regex } => engine_finds(regex, text),
            Matcher::Literal { needle } => {
                if self.config.case_insensitive {
                    let folded: String = fold_case(text);
                    text_contains(folded.as_str(), needle.as_str())
                } else {
                    text_contains(text, needle.as_str())
                }
            },
        };
        self.verdict(found)
    }
}

} // verus!

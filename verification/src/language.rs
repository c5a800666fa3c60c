//! The languages that can be tagged, and which one a file is in: by the MIME
//! type that libmagic reports for it, or by its extension.
use vstd::prelude::*;
use crate::order::{name_bytes, lemma_name_bytes_injective};

verus! {

/// A language with a tree-sitter grammar and tag queries.
#[derive(Clone, Copy, Debug, PartialEq, Eq, Structural)]
pub enum Language {
    Rust,
    Cpp,
    JavaScript,
    Python,
}

/// The language of a file with this MIME type. Plain text is read as C++.
pub open spec fn mime_language(mime: Seq<char>) -> Option<Language> {
    if mime == "text/x-rs"@ {
        Some(Language::Rust)
    } else if mime == "text/plain"@ || mime == "text/x-c"@ || mime == "text/x-c++"@ {
        Some(Language::Cpp)
    } else if mime == "text/x-js"@ {
        Some(Language::JavaScript)
    } else if mime == "text/x-python"@ {
        Some(Language::Python)
    } else {
        None
    }
}

/// The language of a file with this extension (without the dot). C files
/// and headers are read as C++.
pub open spec fn extension_language(ext: Seq<char>) -> Option<Language> {
    if ext == "rs"@ {
        Some(Language::Rust)
    } else if ext == "cc"@ || ext == "hh"@ || ext == "cpp"@ || ext == "hpp"@ || ext == "ipp"@ || ext
        == "h"@ || ext == "c"@ {
        Some(Language::Cpp)
    } else if ext == "js"@ {
        Some(Language::JavaScript)
    } else if ext == "py"@ {
        Some(Language::Python)
    } else {
        None
    }
}

/// The extensions of a language, in the order in which they are listed.
pub open spec fn language_extensions(lang: Language) -> Seq<Seq<char>> {
    match lang {
        Language::Rust => seq!["rs"@],
        Language::Cpp => seq!["cc"@, "hh"@, "cpp"@, "hpp"@, "ipp"@, "h"@, "c"@],
        Language::JavaScript => seq!["js"@],
        Language::Python => seq!["py"@],
    }
}

/// Two strings are equal.
pub fn str_equal(a: &str, b: &str) -> (r: bool)
    ensures
        r == (a@ == b@),
{
    let x = a.as_bytes();
    let y = b.as_bytes();
    if x.len() != y.len() {
        return false;
    }
    let mut i: usize = 0;
    while i < x.len()
        invariant
            x@ == name_bytes(a@),
            y@ == name_bytes(b@),
            x@.len() == y@.len(),
            i <= x@.len(),
            forall|j: int| 0 <= j < i ==> x@[j] == y@[j],
        decreases x@.len() - i,
    {
        if x[i] != y[i] {
            return false;
        }
        i = i + 1;
    }
    assert(x@ =~= y@);
    proof {
        lemma_name_bytes_injective(a@, b@);
    }
    true
}

/// The language of a file with this MIME type, if it can be tagged.
pub fn language_for_mime(mime: &str) -> (r: Option<Language>)
    ensures
        r == mime_language(mime@),
{
    if str_equal(mime, "text/x-rs") {
        Some(Language::Rust)
    } else if str_equal(mime, "text/plain") || str_equal(mime, "text/x-c") || str_equal(
        mime,
        "text/x-c++",
    ) {
        Some(Language::Cpp)
    } else if str_equal(mime, "text/x-js") {
        Some(Language::JavaScript)
    } else if str_equal(mime, "text/x-python") {
        Some(Language::Python)
    } else {
        None
    }
}

/// The language of a file with this extension, if it can be tagged.
pub fn language_for_extension(ext: &str) -> (r: Option<Language>)
    ensures
        r == extension_language(ext@),
{
    if str_equal(ext, "rs") {
        Some(Language::Rust)
    } else if str_equal(ext, "cc") || str_equal(ext, "hh") || str_equal(ext, "cpp") || str_equal(
        ext,
        "hpp",
    ) || str_equal(ext, "ipp") || str_equal(ext, "h") || str_equal(ext, "c") {
        Some(Language::Cpp)
    } else if str_equal(ext, "js") {
        Some(Language::JavaScript)
    } else if str_equal(ext, "py") {
        Some(Language::Python)
    } else {
        None
    }
}

/// The extensions of a language, which share one tagging configuration.
pub fn extensions_of(lang: Language) -> (r: Vec<&'static str>)
    ensures
        r@.map_values(|s: &str| s@) == language_extensions(lang),
{
    let r = match lang {
        Language::Rust => vec!["rs"],
        Language::Cpp => vec!["cc", "hh", "cpp", "hpp", "ipp", "h", "c"],
        Language::JavaScript => vec!["js"],
        Language::Python => vec!["py"],
    };
    assert(r@.map_values(|s: &str| s@) =~= language_extensions(lang));
    r
}

/// Law: every extension of a language is read as that language.
pub proof fn lemma_extensions_agree(lang: Language, i: int)
    requires
        0 <= i < language_extensions(lang).len(),
    ensures
        extension_language(language_extensions(lang)[i]) == Some(lang),
{
    reveal_strlit("rs");
    assert("rs"@.len() == 2 && "rs"@[0] == 'r');
    reveal_strlit("cc");
    assert("cc"@.len() == 2 && "cc"@[0] == 'c');
    reveal_strlit("hh");
    assert("hh"@.len() == 2 && "hh"@[0] == 'h');
    reveal_strlit("cpp");
    assert("cpp"@.len() == 3 && "cpp"@[0] == 'c');
    reveal_strlit("hpp");
    assert("hpp"@.len() == 3 && "hpp"@[0] == 'h');
    reveal_strlit("ipp");
    assert("ipp"@.len() == 3 && "ipp"@[0] == 'i');
    reveal_strlit("h");
    assert("h"@.len() == 1 && "h"@[0] == 'h');
    reveal_strlit("c");
    assert("c"@.len() == 1 && "c"@[0] == 'c');
    reveal_strlit("js");
    assert("js"@.len() == 2 && "js"@[0] == 'j');
    reveal_strlit("py");
    assert("py"@.len() == 2 && "py"@[0] == 'p');
}

/// Law: an extension is listed among the extensions of a language exactly
/// when it is read as that language.
pub proof fn lemma_extension_group(ext: Seq<char>, lang: Language)
    ensures
        language_extensions(lang).contains(ext) <==> extension_language(ext) == Some(lang),
{
    let exts = language_extensions(lang);
    if exts.contains(ext) {
        let i = choose|i: int| 0 <= i < exts.len() && exts[i] == ext;
        lemma_extensions_agree(lang, i);
    }
    if extension_language(ext) == Some(lang) {
        match lang {
            Language::Rust => {
                assert(exts[0] == ext);
            },
            Language::Cpp => {
                if ext == "cc"@ {
                    assert(exts[0] == ext);
                } else if ext == "hh"@ {
                    assert(exts[1] == ext);
                } else if ext == "cpp"@ {
                    assert(exts[2] == ext);
                } else if ext == "hpp"@ {
                    assert(exts[3] == ext);
                } else if ext == "ipp"@ {
                    assert(exts[4] == ext);
                } else if ext == "h"@ {
                    assert(exts[5] == ext);
                } else {
                    assert(exts[6] == ext);
                }
            },
            Language::JavaScript => {
                assert(exts[0] == ext);
            },
            Language::Python => {
                assert(exts[0] == ext);
            },
        }
    }
}

} // verus!

use vstd::prelude::*;

use crate::text::same_text;

verus! {

/// The platforms whose loadable-module suffix the host knows.
#[derive(Clone, Copy, Debug, PartialEq, Eq, Structural)]
pub enum Platform {
    Linux,
    MacOs,
    Windows,
}

/// The file suffix of a loadable module on `p`, without the dot.
pub open spec fn suffix_of(p: Platform) -> Seq<char> {
    match p {
        Platform::Linux => seq!['s', 'o'],
        Platform::MacOs => seq!['d', 'y', 'l', 'i', 'b'],
        Platform::Windows => seq!['d', 'l', 'l'],
    }
}

/// The platform that an operating-system name (as Rust spells it) denotes.
pub open spec fn platform_named(os: Seq<char>) -> Option<Platform> {
    if os == seq!['l', 'i', 'n', 'u', 'x'] {
        Some(Platform::Linux)
    } else if os == seq!['m', 'a', 'c', 'o', 's'] {
        Some(Platform::MacOs)
    } else if os == seq!['w', 'i', 'n', 'd', 'o', 'w', 's'] {
        Some(Platform::Windows)
    } else {
        None
    }
}

/// `-` is not allowed in a module's symbol names, so it becomes `_`.
pub open spec fn module_char(c: char) -> char {
    if c == '-' {
        '_'
    } else {
        c
    }
}

/// An extension name with every `-` replaced by `_`.
pub open spec fn normalized(name: Seq<char>) -> Seq<char> {
    name.map_values(|c: char| module_char(c))
}

/// The file name of the module that holds extension `name` on platform `p`.
pub open spec fn module_file_name(name: Seq<char>, p: Platform) -> Seq<char> {
    normalized(name) + seq!['.'] + suffix_of(p)
}

impl Platform {
    /// Selects the platform from the operating-system name, once at startup.
    pub fn from_os_name(os: &str) -> (r: Option<Platform>)
        ensures
            r == platform_named(os@),
    {
        proof {
            reveal_strlit("linux");
            reveal_strlit("macos");
            reveal_strlit("windows");
            assert("linux"@ =~= seq!['l', 'i', 'n', 'u', 'x']);
            assert("macos"@ =~= seq!['m', 'a', 'c', 'o', 's']);
            assert("windows"@ =~= seq!['w', 'i', 'n', 'd', 'o', 'w', 's']);
        }
        if same_text(os, "linux") {
            Some(Platform::Linux)
        } else if same_text(os, "macos") {
            Some(Platform::MacOs)
        } else if same_text(os, "windows") {
            Some(Platform::Windows)
        } else {
            None
        }
    }

    /// The loadable-module suffix of this platform.
    pub fn library_suffix(&self) -> (r: &'static str)
        ensures
            r@ == suffix_of(*self),
    {
        match self {
            Platform::Linux => {
                proof {
                    reveal_strlit("so");
                }
                "so"
            },
            Platform::MacOs => {
                proof {
                    reveal_strlit("dylib");
                }
                "dylib"
            },
            Platform::Windows => {
                proof {
                    reveal_strlit("dll");
                }
                "dll"
            },
        }
    }
}

/// Replaces each `-` of an extension name by `_`.
pub fn normalize_name(name: &str) -> (r: String)
    ensures
        r@ == normalized(name@),
{
    let n = name.unicode_len();
    let mut out = String::new();
    let mut i: usize = 0;
    while i < n
        invariant
            n == name@.len(),
            i <= n,
            out@ == normalized(name@.subrange(0, i as int)),
        decreases n - i,
    {
        let c = name.get_char(i);
        if c == '-' {
            proof {
                reveal_strlit("_");
                assert("_"@ =~= seq!['_']);
            }
            out.append("_");
        } else {
            let one = name.substring_char(i, i + 1);
            assert(one@ =~= seq![c]);
            out.append(one);
        }
        assert(name@.subrange(0, i + 1) =~= name@.subrange(0, i as int).push(c));
        assert(normalized(name@.subrange(0, i + 1)) =~= normalized(
            name@.subrange(0, i as int),
        ).push(module_char(c)));
        i = i + 1;
    }
    assert(name@.subrange(0, n as int) =~= name@);
    out
}

/// The file name `<normalized name>.<suffix>` of an extension's module.
pub fn library_file_name(name: &str, platform: Platform) -> (r: String)
    ensures
        r@ == module_file_name(name@, platform),
{
    let mut out = normalize_name(name);
    proof {
        reveal_strlit(".");
    }
    out.append(".");
    out.append(platform.library_suffix());
    out
}

} // verus!

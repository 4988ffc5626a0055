use vstd::prelude::*;

use crate::text::same_text;

verus! {

/// `toml::Value`, carried through unread: an extension's own settings.
#[verifier::external_type_specification]
#[verifier::external_body]
pub struct ExTomlValue(toml::Value);

/// `toml::map::Map`, the top-level table of a parsed document.
#[verifier::external_type_specification]
#[verifier::external_body]
#[verifier::reject_recursive_types(K)]
#[verifier::reject_recursive_types(V)]
pub struct ExTomlMap<K, V>(toml::map::Map<K, V>);

/// `toml::de::Error`, mapped to `ConfigError::Malformed`.
#[verifier::external_type_specification]
#[verifier::external_body]
pub struct ExTomlDeError(toml::de::Error);

/// Where the extension configuration comes from; each source reserves one
/// top-level key for its own control settings.
#[derive(Clone, Copy, Debug, PartialEq, Eq, Structural)]
pub enum ConfigSource {
    /// A TOML document on disk; reserves `enabled`.
    Document,
    /// A map held by the running host; reserves `general`.
    InProcess,
}

pub open spec fn reserved_key_of(source: ConfigSource) -> Seq<char> {
    match source {
        ConfigSource::Document => seq!['e', 'n', 'a', 'b', 'l', 'e', 'd'],
        ConfigSource::InProcess => seq!['g', 'e', 'n', 'e', 'r', 'a', 'l'],
    }
}

impl ConfigSource {
    /// The top-level key that names no extension.
    pub fn reserved_key(&self) -> (r: &'static str)
        ensures
            r@ == reserved_key_of(*self),
    {
        match self {
            ConfigSource::Document => {
                proof {
                    reveal_strlit("enabled");
                    assert("enabled"@ =~= reserved_key_of(*self));
                }
                "enabled"
            },
            ConfigSource::InProcess => {
                proof {
                    reveal_strlit("general");
                    assert("general"@ =~= reserved_key_of(*self));
                }
                "general"
            },
        }
    }
}

/// One configured extension: its name and its own settings, which the host
/// hands to the extension without looking inside.
pub struct ExtensionDescriptor {
    pub name: String,
    pub settings: toml::Value,
}

/// The descriptors that the entries `s` yield, in order, leaving out the
/// entry under `reserved`.
pub open spec fn kept(s: Seq<(String, toml::Value)>, reserved: Seq<char>) -> Seq<
    (Seq<char>, toml::Value),
>
    decreases s.len(),
{
    if s.len() == 0 {
        Seq::empty()
    } else {
        let rest = kept(s.drop_first(), reserved);
        if s[0].0@ == reserved {
            rest
        } else {
            seq![(s[0].0@, s[0].1)] + rest
        }
    }
}

pub open spec fn descriptors_model(d: Seq<ExtensionDescriptor>) -> Seq<(Seq<char>, toml::Value)> {
    d.map_values(|e: ExtensionDescriptor| (e.name@, e.settings))
}

/// Why the configuration could not be read.
#[derive(Clone, Copy, Debug, PartialEq, Eq, Structural)]
pub enum ConfigError {
    /// The document is not valid TOML.
    Malformed,
}

/// The top-level keys, in document order, of the TOML document `text`, or
/// `None` when it does not parse as a table.
pub uninterp spec fn document_keys(text: Seq<char>) -> Option<Seq<Seq<char>>>;

/// The keys of a TOML table, in the table's order.
pub uninterp spec fn table_keys(t: toml::Table) -> Seq<Seq<char>>;

/// Relies on `<toml::Table as FromStr>::from_str` (toml::from_str) to parse a
/// document into its top-level table; the result depends on the text alone,
/// and an empty document is an empty table.
#[verifier::external_body]
fn parse_table(text: &str) -> (r: Result<toml::Table, toml::de::Error>)
    ensures
        r is Ok <==> document_keys(text@) is Some,
        r matches Ok(t) ==> table_keys(t) == document_keys(text@)->Some_0,
        r is Err ==> text@.len() > 0,
        r matches Ok(t) ==> (text@.len() == 0 ==> table_keys(t).len() == 0),
{
    text.parse::<toml::Table>()
}

/// Relies on `IntoIterator for toml::map::Map<String, Value>`: each entry of
/// the table once, in the table's order; the keys of a map are distinct.
#[verifier::external_body]
fn table_entries(table: toml::Table) -> (r: Vec<(String, toml::Value)>)
    ensures
        entry_names(r@) == table_keys(table),
        entry_names(r@).no_duplicates(),
{
    table.into_iter().collect()
}

/// Every name kept is other than the reserved one.
proof fn lemma_kept_not_reserved(s: Seq<(String, toml::Value)>, reserved: Seq<char>)
    ensures
        forall|i: int| 0 <= i < kept(s, reserved).len() ==> (#[trigger] kept(s, reserved)[i]).0 != reserved,
    decreases s.len(),
{
    if s.len() > 0 {
        lemma_kept_not_reserved(s.drop_first(), reserved);
        let rest = kept(s.drop_first(), reserved);
        assert forall|i: int| 0 <= i < kept(s, reserved).len() implies (#[trigger] kept(s, reserved)[i]).0
            != reserved by {
            if s[0].0@ != reserved && i > 0 {
                assert(kept(s, reserved)[i] == rest[i - 1]);
            }
        }
    }
}

pub open spec fn entry_names(s: Seq<(String, toml::Value)>) -> Seq<Seq<char>> {
    s.map_values(|e: (String, toml::Value)| e.0@)
}

pub open spec fn kept_names(s: Seq<(Seq<char>, toml::Value)>) -> Seq<Seq<char>> {
    s.map_values(|e: (Seq<char>, toml::Value)| e.0)
}

/// Keeping a part of the entries keeps their names distinct.
proof fn lemma_kept_distinct(s: Seq<(String, toml::Value)>, reserved: Seq<char>)
    requires
        entry_names(s).no_duplicates(),
    ensures
        kept_names(kept(s, reserved)).no_duplicates(),
        forall|n: Seq<char>| kept_names(kept(s, reserved)).contains(n) ==> entry_names(s).contains(n),
    decreases s.len(),
{
    if s.len() > 0 {
        let t = s.drop_first();
        assert(entry_names(t) =~= entry_names(s).drop_first());
        lemma_kept_distinct(t, reserved);
        let rest = kept(t, reserved);
        assert forall|n: Seq<char>| kept_names(kept(s, reserved)).contains(n) implies entry_names(s).contains(n) by {
            let k = choose|k: int| 0 <= k < kept_names(kept(s, reserved)).len() && kept_names(kept(s, reserved))[k] == n;
            if s[0].0@ != reserved && k == 0 {
                assert(entry_names(s)[0] == n);
            } else {
                let j = if s[0].0@ != reserved { k - 1 } else { k };
                assert(kept_names(rest)[j] == n);
                assert(entry_names(t).contains(n));
                let m = choose|m: int| 0 <= m < entry_names(t).len() && entry_names(t)[m] == n;
                assert(entry_names(s)[m + 1] == n);
            }
        }
        if s[0].0@ != reserved {
            assert(!entry_names(t).contains(s[0].0@)) by {
                if entry_names(t).contains(s[0].0@) {
                    let m = choose|m: int| 0 <= m < entry_names(t).len() && entry_names(t)[m] == s[0].0@;
                    assert(entry_names(s)[m + 1] == entry_names(s)[0]);
                }
            }
            assert(kept_names(kept(s, reserved)) =~= seq![s[0].0@] + kept_names(rest));
        }
    }
}

/// Counting: of entries with distinct names, one descriptor is kept for each
/// name other than the reserved key, and no name is kept twice or reserved.
pub proof fn lemma_descriptor_count(s: Seq<(String, toml::Value)>, reserved: Seq<char>)
    requires
        entry_names(s).no_duplicates(),
    ensures
        kept(s, reserved).len() == s.len() - (if entry_names(s).contains(reserved) {
            1int
        } else {
            0int
        }),
        kept_names(kept(s, reserved)).no_duplicates(),
        forall|i: int| 0 <= i < kept(s, reserved).len() ==> (#[trigger] kept(s, reserved)[i]).0 != reserved,
    decreases s.len(),
{
    lemma_kept_distinct(s, reserved);
    lemma_kept_not_reserved(s, reserved);
    if s.len() > 0 {
        let t = s.drop_first();
        assert(entry_names(t) =~= entry_names(s).drop_first());
        lemma_descriptor_count(t, reserved);
        if s[0].0@ == reserved {
            assert(entry_names(s)[0] == reserved);
            assert(!entry_names(t).contains(reserved)) by {
                if entry_names(t).contains(reserved) {
                    let m = choose|m: int| 0 <= m < entry_names(t).len() && entry_names(t)[m] == reserved;
                    assert(entry_names(s)[m + 1] == entry_names(s)[0]);
                }
            }
        } else {
            assert(entry_names(s).contains(reserved) == entry_names(t).contains(reserved)) by {
                if entry_names(s).contains(reserved) {
                    let m = choose|m: int| 0 <= m < entry_names(s).len() && entry_names(s)[m] == reserved;
                    assert(m > 0);
                    assert(entry_names(t)[m - 1] == reserved);
                }
                if entry_names(t).contains(reserved) {
                    let m = choose|m: int| 0 <= m < entry_names(t).len() && entry_names(t)[m] == reserved;
                    assert(entry_names(s)[m + 1] == reserved);
                }
            }
        }
    }
}

/// The extension descriptors of the configuration entries, in the order of
/// the entries, leaving out the key that `source` reserves.
pub fn select_descriptors(entries: Vec<(String, toml::Value)>, source: ConfigSource) -> (r: Vec<
    ExtensionDescriptor,
>)
    ensures
        descriptors_model(r@) == kept(entries@, reserved_key_of(source)),
        forall|i: int| 0 <= i < r@.len() ==> (#[trigger] r@[i]).name@ != reserved_key_of(source),
{
    let reserved = source.reserved_key();
    let ghost key = reserved_key_of(source);
    let mut out: Vec<ExtensionDescriptor> = Vec::new();
    let mut rest = entries;
    assert(descriptors_model(out@) + kept(rest@, key) =~= kept(entries@, key));
    while rest.len() > 0
        invariant
            reserved@ == key,
            descriptors_model(out@) + kept(rest@, key) == kept(entries@, key),
        decreases rest.len(),
    {
        let ghost before = rest@;
        let ghost done = descriptors_model(out@);
        let entry = rest.remove(0);
        assert(before.drop_first() =~= rest@);
        let (name, settings) = entry;
        if !same_text(name.as_str(), reserved) {
            let ghost item = (name@, settings);
            out.push(ExtensionDescriptor { name, settings });
            assert(descriptors_model(out@) =~= done.push(item));
            assert(done.push(item) + kept(rest@, key) =~= done + (seq![item] + kept(rest@, key)));
        }
    }
    assert(kept(rest@, key) =~= Seq::<(Seq<char>, toml::Value)>::empty());
    assert(descriptors_model(out@) + kept(rest@, key) =~= descriptors_model(out@));
    proof {
        lemma_kept_not_reserved(entries@, key);
        assert forall|i: int| 0 <= i < out@.len() implies (#[trigger] out@[i]).name@ != key by {
            assert(descriptors_model(out@)[i].0 == out@[i].name@);
        }
    }
    out
}

/// Reads the extension descriptors out of a TOML document: every top-level
/// key but `enabled` names one extension, in the order of the document. A
/// document that does not parse is `Malformed`; an empty one names none.
pub fn descriptors_from_document(text: &str) -> (r: Result<Vec<ExtensionDescriptor>, ConfigError>)
    ensures
        r is Ok <==> document_keys(text@) is Some,
        r is Err ==> r == Err::<Vec<ExtensionDescriptor>, ConfigError>(ConfigError::Malformed),
        r matches Ok(d) ==> exists|e: Seq<(String, toml::Value)>|
            entry_names(e) == document_keys(text@)->Some_0 && descriptors_model(d@) == kept(
                e,
                reserved_key_of(ConfigSource::Document),
            ),
        text@.len() == 0 ==> r is Ok,
        r matches Ok(d) ==> (text@.len() == 0 ==> d@.len() == 0),
        r matches Ok(d) ==> forall|i: int|
            0 <= i < d@.len() ==> (#[trigger] d@[i]).name@ != reserved_key_of(ConfigSource::Document),
        r matches Ok(d) ==> kept_names(descriptors_model(d@)).no_duplicates(),
{
    match parse_table(text) {
        Ok(table) => {
            let entries = table_entries(table);
            let ghost e = entries@;
            proof {
                lemma_kept_distinct(e, reserved_key_of(ConfigSource::Document));
                if text@.len() == 0 {
                    assert(e.len() == entry_names(e).len());
                    assert(e =~= Seq::<(String, toml::Value)>::empty());
                    assert(kept(e, reserved_key_of(ConfigSource::Document)).len() == 0);
                }
            }
            let d = select_descriptors(entries, ConfigSource::Document);
            assert(descriptors_model(d@).len() == d@.len());
            Ok(d)
        },
        Err(_) => Err(ConfigError::Malformed),
    }
}

} // verus!

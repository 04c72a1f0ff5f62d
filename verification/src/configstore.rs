use vstd::prelude::*;

verus! {

/// The parsing parameters that persist between runs. The one field so
/// far is the marker: the line of instrument text after which the data
/// rows begin. The caller owns the store, loads it at startup, saves it
/// at shutdown, and lends it read-only to each parse call.
#[derive(Clone, Debug, PartialEq)]
pub struct ConfigStore {
    /// The exact text of the line that separates the file's preamble
    /// from its data rows.
    pub read_start_header: String,
}

/// The mathematical content of a `ConfigStore`.
#[verifier::ext_equal]
pub struct ConfigStoreView {
    pub read_start_header: Seq<char>,
}

impl View for ConfigStore {
    type V = ConfigStoreView;

    open spec fn view(&self) -> ConfigStoreView {
        ConfigStoreView { read_start_header: self.read_start_header@ }
    }
}

impl Default for ConfigStore {
    /// The documented default: the marker line the instrument writes
    /// before its data rows.
    fn default() -> (c: ConfigStore)
        ensures
            c@.read_start_header == "DATA:"@,
    {
        ConfigStore { read_start_header: "DATA:".to_owned() }
    }
}

/// The key under which the marker is persisted, with its separator.
pub open spec fn config_key() -> Seq<char> {
    "read_start_header="@
}

/// The persisted form of a configuration: one `key=value` line,
/// newline-terminated.
pub open spec fn config_text(c: ConfigStoreView) -> Seq<char> {
    config_key() + c.read_start_header + "\n"@
}

/// How persisted text is read back: it must be exactly one
/// `read_start_header=` line whose value holds no newline of its own.
pub open spec fn parse_config(text: Seq<char>) -> Option<ConfigStoreView> {
    let k = config_key().len() as int;
    if text.len() >= k + 1 && text.take(k) == config_key() && text.last() == '\n' && (forall|
        j: int,
    |
        k <= j < text.len() - 1 ==> text[j] != '\n') {
        Some(ConfigStoreView { read_start_header: text.subrange(k, text.len() - 1) })
    } else {
        None
    }
}

/// Serializes the configuration for persistence, as `config_text`
/// describes. The caller performs the actual file write.
pub fn config_to_text(c: &ConfigStore) -> (s: String)
    ensures
        s@ == config_text(c@),
{
    let mut s = "read_start_header=".to_owned();
    s.append(c.read_start_header.as_str());
    s.append("\n");
    proof {
        assert(s@ =~= config_text(c@));
    }
    s
}

/// Errors of configuration persistence. Reading and writing the file
/// itself is the caller's work; the caller wraps its failures in
/// `ReadFailed` and `WriteFailed`.
#[derive(Clone, Debug, PartialEq)]
pub enum ConfigError {
    /// The persisted file could not be read.
    ReadFailed(String),
    /// The persisted text does not have the `key=value` form.
    DeserializeFailed(String),
    /// The configuration could not be written back.
    WriteFailed(String),
}

/// Reads persisted configuration text back, as `parse_config`
/// describes: exactly the texts `parse_config` accepts yield a store.
#[verifier::loop_isolation(false)]
pub fn config_from_text(text: &str) -> (res: Result<ConfigStore, ConfigError>)
    ensures
        match res {
            Ok(c) => parse_config(text@) == Some(c@),
            Err(ConfigError::DeserializeFailed(_)) => parse_config(text@) is None,
            Err(_) => false,
        },
{
    let key = "read_start_header=";
    proof {
        reveal_strlit("read_start_header=");
    }
    let klen = key.unicode_len();
    let n = text.unicode_len();
    if n < klen + 1 {
        return Err(ConfigError::DeserializeFailed("configuration text is too short".to_owned()));
    }
    let mut i: usize = 0;
    while i < klen
        invariant
            0 <= i <= klen,
            forall|j: int| 0 <= j < i ==> text@[j] == config_key()[j],
        decreases klen - i,
    {
        if text.get_char(i) != key.get_char(i) {
            proof {
                assert(text@.take(klen as int)[i as int] != config_key()[i as int]);
            }
            return Err(
                ConfigError::DeserializeFailed("configuration text has no marker key".to_owned()),
            );
        }
        i += 1;
    }
    proof {
        assert(text@.take(klen as int) =~= config_key());
    }
    if text.get_char(n - 1) != '\n' {
        return Err(
            ConfigError::DeserializeFailed("configuration text has no final newline".to_owned()),
        );
    }
    let mut i: usize = klen;
    while i < n - 1
        invariant
            klen <= i <= n - 1,
            forall|j: int| klen <= j < i ==> text@[j] != '\n',
        decreases n - i,
    {
        if text.get_char(i) == '\n' {
            return Err(
                ConfigError::DeserializeFailed(
                    "configuration text has more than one line".to_owned(),
                ),
            );
        }
        i += 1;
    }
    let value = text.substring_char(klen, n - 1).to_owned();
    Ok(ConfigStore { read_start_header: value })
}

/// Law: persisted configuration text reads back to the same store, for
/// any marker that spans no more than its one line.
pub proof fn lemma_config_round_trip(c: ConfigStoreView)
    requires
        forall|j: int| 0 <= j < c.read_start_header.len() ==> c.read_start_header[j] != '\n',
    ensures
        parse_config(config_text(c)) == Some(c),
{
    let text = config_text(c);
    let k = config_key().len() as int;
    reveal_strlit("read_start_header=");
    reveal_strlit("\n");
    assert(text.take(k) =~= config_key());
    assert(text.last() == '\n');
    assert forall|j: int| k <= j < text.len() - 1 implies text[j] != '\n' by {
        assert(text[j] == c.read_start_header[j - k]);
    }
    assert(text.subrange(k, text.len() - 1) =~= c.read_start_header);
}

} // verus!

//! Component QA schema: the dialog payloads that travel through the
//! canonical encoding layer.

use vstd::prelude::*;

use crate::canon::{key_bytes, key_bytes_lt, lex_lt};

verus! {

/// Localizable text: a key into a message catalogue, with an optional
/// fallback text.
pub struct I18nText {
    /// Catalogue key.
    pub key: String,
    /// Optional fallback text.
    pub fallback: Option<String>,
}

impl I18nText {
    /// Builds a text from its key and optional fallback.
    pub fn new(key: &str, fallback: Option<String>) -> (r: I18nText)
        ensures
            r.key@ == key@,
            r.fallback == fallback,
    {
        I18nText { key: key.to_owned(), fallback }
    }
}

/// QA mode.
#[derive(Clone, Copy, Debug, PartialEq, Eq, Structural)]
pub enum QaMode {
    Default,
    Setup,
    Update,
    Remove,
}

impl QaMode {
    /// Canonical string form for this mode.
    pub fn as_str(&self) -> (r: &'static str)
        ensures
            r@ == mode_chars(*self),
    {
        match self {
            QaMode::Default => "default",
            QaMode::Setup => "setup",
            QaMode::Update => "update",
            QaMode::Remove => "remove",
        }
    }

    /// Parses the canonical string form; the legacy spelling `upgrade` is
    /// accepted for the update mode. Every other input is rejected with the
    /// fixed message.
    pub fn from_str(value: &str) -> (r: Result<QaMode, &'static str>)
        ensures
            r matches Ok(m) ==> value@ == mode_chars(m) || (m is Update && value@ == "upgrade"@),
            r is Err ==> forall|m: QaMode| value@ != mode_chars(m) && value@ != "upgrade"@,
            r matches Err(e) ==> e@ == "invalid QA mode"@,
    {
        if eq_str(value, "default") {
            Ok(QaMode::Default)
        } else if eq_str(value, "setup") {
            Ok(QaMode::Setup)
        } else if eq_str(value, "update") || eq_str(value, "upgrade") {
            Ok(QaMode::Update)
        } else if eq_str(value, "remove") {
            Ok(QaMode::Remove)
        } else {
            proof {
                assert(forall|m: QaMode| value@ != mode_chars(m)) by {
                    assert(mode_chars(QaMode::Default) == "default"@);
                }
            }
            Err("invalid QA mode")
        }
    }
}

/// The canonical characters of each mode.
pub open spec fn mode_chars(m: QaMode) -> Seq<char> {
    match m {
        QaMode::Default => "default"@,
        QaMode::Setup => "setup"@,
        QaMode::Update => "update"@,
        QaMode::Remove => "remove"@,
    }
}

/// Relies on str's PartialEq: equality of the character sequences.
#[verifier::external_body]
pub fn eq_str(a: &str, b: &str) -> (r: bool)
    ensures
        r == (a@ == b@),
{
    a == b
}

/// Question type.
pub enum QuestionKind {
    /// Free-form text input.
    Text,
    /// Choice list.
    Choice { options: Vec<ChoiceOption> },
    /// Numeric input.
    Number,
    /// Boolean input.
    Bool,
}

/// Choice option.
pub struct ChoiceOption {
    /// Value returned for this option.
    pub value: String,
    /// Label shown to the user.
    pub label: I18nText,
}

/// Question entry.
pub struct Question {
    /// Question identifier.
    pub id: String,
    /// Label shown to the user.
    pub label: I18nText,
    /// Optional help text.
    pub help: Option<I18nText>,
    /// Optional error message used as validation feedback.
    pub error: Option<I18nText>,
    /// Kind of question.
    pub kind: QuestionKind,
    /// Whether the question is required.
    pub required: bool,
    /// Optional default value.
    pub default: Option<crate::canon::CanonValue>,
}

/// QA spec for a component.
pub struct ComponentQaSpec {
    /// QA mode.
    pub mode: QaMode,
    /// Human-readable title.
    pub title: I18nText,
    /// Optional description.
    pub description: Option<I18nText>,
    /// Questions to present.
    pub questions: Vec<Question>,
    /// Default values, keyed by question identifier.
    pub defaults: Vec<(String, crate::canon::CanonValue)>,
}

/// The catalogue keys one question mentions.
pub open spec fn question_keys(q: Question) -> Set<Seq<char>> {
    let base = Set::empty().insert(q.label.key@);
    let with_help = if q.help is Some {
        base.insert(q.help->0.key@)
    } else {
        base
    };
    let with_err = if q.error is Some {
        with_help.insert(q.error->0.key@)
    } else {
        with_help
    };
    if q.kind is Choice {
        with_err.union(
            Set::new(
                |k: Seq<char>|
                    exists|i: int|
                        0 <= i < (q.kind->Choice_options)@.len() && (#[trigger] (
                        q.kind->Choice_options)@[i]).label.key@ == k,
            ),
        )
    } else {
        with_err
    }
}

/// The catalogue keys a whole spec mentions.
pub open spec fn spec_keys(s: ComponentQaSpec) -> Set<Seq<char>> {
    let base = Set::empty().insert(s.title.key@);
    let with_desc = if s.description is Some {
        base.insert(s.description->0.key@)
    } else {
        base
    };
    with_desc.union(
        Set::new(
            |k: Seq<char>|
                exists|i: int|
                    0 <= i < s.questions@.len() && question_keys(
                        #[trigger] s.questions@[i],
                    ).contains(k),
        ),
    )
}

/// Whether some string in the list holds exactly these characters.
pub open spec fn has_key(keys: Seq<String>, k: Seq<char>) -> bool {
    exists|i: int| 0 <= i < keys.len() && (#[trigger] keys[i])@ == k
}

/// Strictly ascending by key byte sequence.
pub open spec fn sorted_keys(keys: Seq<String>) -> bool {
    forall|i: int|
        0 <= i && i + 1 < keys.len() ==> lex_lt(
            key_bytes((#[trigger] keys[i])@),
            key_bytes(keys[i + 1]@),
        )
}

/// A strictly sorted key list holds no duplicates.
pub proof fn lemma_sorted_keys_distinct(keys: Seq<String>)
    requires
        sorted_keys(keys),
    ensures
        forall|i: int, j: int| 0 <= i < j < keys.len() ==> (#[trigger] keys[i])@ != (
        #[trigger] keys[j])@,
{
    assert forall|i: int, j: int| 0 <= i < j < keys.len() implies (#[trigger] keys[i])@ != (
    #[trigger] keys[j])@ by {
        lemma_sorted_keys_lt(keys, i, j);
        crate::canon::lemma_lex_irrefl(key_bytes(keys[i]@));
    }
}

proof fn lemma_sorted_keys_lt(keys: Seq<String>, i: int, j: int)
    requires
        sorted_keys(keys),
        0 <= i < j < keys.len(),
    ensures
        lex_lt(key_bytes(keys[i]@), key_bytes(keys[j]@)),
    decreases j - i,
{
    if j > i + 1 {
        lemma_sorted_keys_lt(keys, i, j - 1);
        crate::canon::lemma_lex_trans(
            key_bytes(keys[i]@),
            key_bytes(keys[j - 1]@),
            key_bytes(keys[j]@),
        );
    }
}

/// Inserts `key` at its byte-order position unless an equal string is
/// already present.
#[verifier::loop_isolation(false)]
fn push_unique(keys: &mut Vec<String>, key: &String)
    ensures
        forall|k: Seq<char>| #[trigger]
            has_key(final(keys)@, k) <==> has_key(old(keys)@, k) || k == key@,
        sorted_keys(old(keys)@) ==> sorted_keys(final(keys)@),
{
    broadcast use vstd::std_specs::vec::group_vec_axioms, vstd::seq::group_seq_axioms;

    let ghost ks0 = keys@;
    let mut i: usize = 0;
    while i < keys.len() && key_bytes_lt(&keys[i], key)
        invariant
            i <= keys@.len(),
            *keys == *old(keys),
            forall|j: int|
                0 <= j < i ==> lex_lt(key_bytes((#[trigger] ks0[j])@), key_bytes(key@)),
        decreases keys@.len() - i,
    {
        i += 1;
    }
    if i < keys.len() && !key_bytes_lt(key, &keys[i]) {
        proof {
            crate::canon::lemma_lex_trichotomy(key_bytes(key@), key_bytes(ks0[i as int]@));
            crate::canon::lemma_key_bytes_injective(key@, ks0[i as int]@);
            assert(has_key(ks0, key@));
        }
        return ;
    }
    let k2 = clone_string(key);
    keys.insert(i, k2);
    proof {
        let ks1 = keys@;
        assert(ks1 == ks0.insert(i as int, k2));
        assert(ks1[i as int]@ == key@);
        assert(forall|j: int| 0 <= j < i ==> #[trigger] ks1[j] == ks0[j]);
        assert(forall|j: int| i < j < ks1.len() ==> #[trigger] ks1[j] == ks0[j - 1]);
        assert forall|k: Seq<char>| #[trigger]
            has_key(ks1, k) <==> has_key(ks0, k) || k == key@ by {
            if has_key(ks1, k) {
                let j = choose|j: int| 0 <= j < ks1.len() && (#[trigger] ks1[j])@ == k;
                if j < i {
                    assert(ks0[j]@ == k);
                } else if j > i {
                    assert(ks0[j - 1]@ == k);
                }
            }
            if has_key(ks0, k) {
                let j = choose|j: int| 0 <= j < ks0.len() && (#[trigger] ks0[j])@ == k;
                if j < i {
                    assert(ks1[j]@ == k);
                } else {
                    assert(ks1[j + 1]@ == k);
                }
            }
            if k == key@ {
                assert(ks1[i as int]@ == k);
            }
        }
        if sorted_keys(ks0) {
            assert forall|a: int| 0 <= a && a + 1 < ks1.len() implies lex_lt(
                key_bytes((#[trigger] ks1[a])@),
                key_bytes(ks1[a + 1]@),
            ) by {
                if a + 1 < i {
                    assert(ks1[a] == ks0[a] && ks1[a + 1] == ks0[a + 1]);
                } else if a + 1 == i {
                    assert(ks1[a] == ks0[a]);
                } else if a == i {
                    assert(ks1[a + 1] == ks0[a]);
                } else {
                    assert(ks1[a] == ks0[a - 1] && ks1[a + 1] == ks0[a]);
                }
            }
        }
    }
}

/// Relies on String's Clone: the copy holds the same characters./// Relies on String's Clone: the copy holds the same characters.
#[verifier::external_body]
pub fn clone_string(s: &String) -> (r: String)
    ensures
        r@ == s@,
{
    s.clone()
}

impl Question {
    /// Adds every catalogue key this question mentions to `keys`.
    #[verifier::loop_isolation(false)]
    fn collect_i18n_keys(&self, keys: &mut Vec<String>)
        ensures
            forall|k: Seq<char>| #[trigger]
                has_key(final(keys)@, k) <==> has_key(old(keys)@, k) || question_keys(
                    *self,
                ).contains(k),
            sorted_keys(old(keys)@) ==> sorted_keys(final(keys)@),
    {
        broadcast use vstd::std_specs::vec::group_vec_axioms, vstd::seq::group_seq_axioms;

        push_unique(keys, &self.label.key);
        if let Some(h) = &self.help {
            push_unique(keys, &h.key);
        }
        if let Some(e) = &self.error {
            push_unique(keys, &e.key);
        }
        if let QuestionKind::Choice { options } = &self.kind {
            let mut i: usize = 0;
            while i < options.len()
                invariant
                    i <= options@.len(),
                    sorted_keys(old(keys)@) ==> sorted_keys(keys@),
                    forall|k: Seq<char>| #[trigger]
                        has_key(keys@, k) <==> has_key(old(keys)@, k) || k == self.label.key@ || (
                        self.help is Some && k == self.help->0.key@) || (self.error is Some && k
                            == self.error->0.key@) || (exists|j: int|
                            0 <= j < i && (#[trigger] options@[j]).label.key@ == k),
                decreases options@.len() - i,
            {
                push_unique(keys, &options[i].label.key);
                i += 1;
            }
        }
    }
}

impl ComponentQaSpec {
    /// Collects all catalogue keys referenced by this spec: exactly the
    /// spec'd key set, each key once, in ascending key-byte order (the order
    /// an ordered set iterates in).
    #[verifier::loop_isolation(false)]
    pub fn i18n_keys(&self) -> (r: Vec<String>)
        ensures
            forall|k: Seq<char>| #[trigger] has_key(r@, k) <==> spec_keys(*self).contains(k),
            sorted_keys(r@),
            forall|i: int, j: int| 0 <= i < j < r@.len() ==> (#[trigger] r@[i])@ != (
            #[trigger] r@[j])@,
    {
        broadcast use vstd::std_specs::vec::group_vec_axioms, vstd::seq::group_seq_axioms;

        let mut keys: Vec<String> = Vec::new();
        push_unique(&mut keys, &self.title.key);
        if let Some(d) = &self.description {
            push_unique(&mut keys, &d.key);
        }
        let mut i: usize = 0;
        while i < self.questions.len()
            invariant
                i <= self.questions@.len(),
                sorted_keys(keys@),
                forall|k: Seq<char>| #[trigger]
                    has_key(keys@, k) <==> k == self.title.key@ || (self.description is Some && k
                        == self.description->0.key@) || (exists|j: int|
                        0 <= j < i && question_keys(#[trigger] self.questions@[j]).contains(k)),
            decreases self.questions@.len() - i,
        {
            self.questions[i].collect_i18n_keys(&mut keys);
            i += 1;
        }
        proof {
            lemma_sorted_keys_distinct(keys@);
        }
        keys
    }
}

} // verus!

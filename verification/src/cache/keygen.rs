//! The mapping from logical cache keys to the namespaced keys of the shared
//! tier.

use vstd::prelude::*;
use vstd::string::StringExecFns;

verus! {

/// The decimal digit `digit` as text.
pub open spec fn digit_text(digit: nat) -> Seq<char> {
    if digit == 0 {
        "0"@
    } else if digit == 1 {
        "1"@
    } else if digit == 2 {
        "2"@
    } else if digit == 3 {
        "3"@
    } else if digit == 4 {
        "4"@
    } else if digit == 5 {
        "5"@
    } else if digit == 6 {
        "6"@
    } else if digit == 7 {
        "7"@
    } else if digit == 8 {
        "8"@
    } else {
        "9"@
    }
}

/// The number `n` in decimal, without leading zeros.
pub open spec fn decimal_text(n: nat) -> Seq<char>
    decreases n,
{
    if n < 10 {
        digit_text(n)
    } else {
        decimal_text(n / 10) + digit_text(n % 10)
    }
}

/// What follows the logical key in a namespaced key: the code version and
/// the site version.
pub open spec fn version_suffix(codever: u32, sitever: u32) -> Seq<char> {
    ":c"@ + decimal_text(codever as nat) + ":s"@ + decimal_text(sitever as nat)
}

/// The namespaced key for `key`: the prefix, the key, the version suffix.
pub open spec fn namespaced(prefix: Seq<char>, key: Seq<char>, suffix: Seq<char>) -> Seq<char> {
    prefix + ":"@ + key + suffix
}

/// Distinct logical keys get distinct namespaced keys.
pub proof fn lemma_namespaced_injective(
    prefix: Seq<char>,
    suffix: Seq<char>,
    a: Seq<char>,
    b: Seq<char>,
)
    requires
        namespaced(prefix, a, suffix) == namespaced(prefix, b, suffix),
    ensures
        a == b,
{
    let head = prefix + ":"@;
    let left = namespaced(prefix, a, suffix);
    let right = namespaced(prefix, b, suffix);
    assert(left.len() == head.len() + a.len() + suffix.len());
    assert(right.len() == head.len() + b.len() + suffix.len());
    assert forall|i: int| 0 <= i < a.len() implies a[i] == b[i] by {
        assert(left[head.len() + i] == a[i]);
        assert(right[head.len() + i] == b[i]);
    }
    assert(a =~= b);
}

/// Generates the keys under which the shared tier holds the entries of one
/// kind, at one version of their serialized form.
pub struct KeyGen {
    prefix: String,
    suffix: String,
}

/// The decimal digit `digit` as text.
fn digit_str(digit: u32) -> (text: &'static str)
    requires
        digit < 10,
    ensures
        text@ == digit_text(digit as nat),
{
    if digit == 0 {
        "0"
    } else if digit == 1 {
        "1"
    } else if digit == 2 {
        "2"
    } else if digit == 3 {
        "3"
    } else if digit == 4 {
        "4"
    } else if digit == 5 {
        "5"
    } else if digit == 6 {
        "6"
    } else if digit == 7 {
        "7"
    } else if digit == 8 {
        "8"
    } else {
        "9"
    }
}

/// Appends `n` in decimal to `text`.
fn append_decimal(text: &mut String, n: u32)
    ensures
        final(text)@ == old(text)@ + decimal_text(n as nat),
    decreases n,
{
    if n < 10 {
        text.append(digit_str(n));
    } else {
        append_decimal(text, n / 10);
        text.append(digit_str(n % 10));
        assert(text@ =~= old(text)@ + decimal_text(n as nat));
    }
}

impl KeyGen {
    /// The prefix that every generated key starts with.
    pub closed spec fn prefix_text(&self) -> Seq<char> {
        self.prefix@
    }

    /// The version suffix that every generated key ends with.
    pub closed spec fn suffix_text(&self) -> Seq<char> {
        self.suffix@
    }

    /// A generator for keys under `prefix`, at code version `codever` and
    /// site version `sitever`.
    pub fn new(prefix: &str, codever: u32, sitever: u32) -> (keygen: Self)
        ensures
            keygen.prefix_text() == prefix@,
            keygen.suffix_text() == version_suffix(codever, sitever),
    {
        let mut suffix = String::from_str(":c");
        append_decimal(&mut suffix, codever);
        suffix.append(":s");
        append_decimal(&mut suffix, sitever);
        KeyGen { prefix: String::from_str(prefix), suffix }
    }

    /// The namespaced key for the logical key `key`.
    pub fn key(&self, key: &str) -> (full: String)
        ensures
            full@ == namespaced(self.prefix_text(), key@, self.suffix_text()),
    {
        let mut full = self.prefix.clone();
        full.append(":");
        full.append(key);
        full.append(self.suffix.as_str());
        full
    }
}

} // verus!

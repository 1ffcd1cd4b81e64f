//! Names of the generated typed-client items.
use vstd::prelude::*;

use crate::text::{append_chars, owned_string, push_char, str_to_chars};

verus! {

/// Whether `char::is_uppercase` holds of `c` (the Unicode `Uppercase`
/// property).
pub uninterp spec fn char_is_uppercase(c: char) -> bool;

/// The first character of `char::to_lowercase` of `c`.
pub uninterp spec fn char_lowercase_first(c: char) -> char;

/// `char::is_uppercase`.
#[verifier::external_body]
fn is_uppercase(c: char) -> (b: bool)
    ensures
        b == char_is_uppercase(c),
{
    c.is_uppercase()
}

/// The first character that `char::to_lowercase` yields (it always yields
/// at least one).
#[verifier::external_body]
fn lowercase_first(c: char) -> (r: char)
    ensures
        r == char_lowercase_first(c),
{
    c.to_lowercase().next().unwrap()
}

/// Snake case from the characters, whether each is uppercase, and the
/// lowercase of each: before every uppercase character but a leading one
/// comes `_`, and the character is replaced by its lowercase.
pub open spec fn snake_from(s: Seq<char>, upper: Seq<bool>, lower: Seq<char>) -> Seq<char>
    decreases s.len(),
{
    if s.len() == 0 {
        Seq::empty()
    } else {
        let n = s.len() - 1;
        let prev = snake_from(s.take(n), upper.take(n), lower.take(n));
        if upper[n] {
            if prev.len() > 0 {
                prev.push('_').push(lower[n])
            } else {
                prev.push(lower[n])
            }
        } else {
            prev.push(s[n])
        }
    }
}

/// PascalCase to snake_case, by the Unicode case of each character.
pub open spec fn snake_case(s: Seq<char>) -> Seq<char> {
    snake_from(
        s,
        s.map_values(|c: char| char_is_uppercase(c)),
        s.map_values(|c: char| char_lowercase_first(c)),
    )
}

proof fn lemma_snake_take(s: Seq<char>, upper: Seq<bool>, lower: Seq<char>, i: int)
    requires
        0 <= i < s.len(),
        s.len() == upper.len() == lower.len(),
    ensures
        snake_from(s.take(i + 1), upper.take(i + 1), lower.take(i + 1)) == if upper[i] {
            if snake_from(s.take(i), upper.take(i), lower.take(i)).len() > 0 {
                snake_from(s.take(i), upper.take(i), lower.take(i)).push('_').push(lower[i])
            } else {
                snake_from(s.take(i), upper.take(i), lower.take(i)).push(lower[i])
            }
        } else {
            snake_from(s.take(i), upper.take(i), lower.take(i)).push(s[i])
        },
{
    assert(s.take(i + 1).take(i) =~= s.take(i));
    assert(upper.take(i + 1).take(i) =~= upper.take(i));
    assert(lower.take(i + 1).take(i) =~= lower.take(i));
}

/// Snake case of `chars`, given for each character whether it is uppercase
/// and its lowercase.
pub fn snake_case_from(chars: &[char], upper: &[bool], lower: &[char]) -> (r: String)
    requires
        chars.len() == upper.len() == lower.len(),
    ensures
        r@ == snake_from(chars@, upper@, lower@),
{
    let mut result = String::new();
    let mut nonempty = false;
    let mut i: usize = 0;
    while i < chars.len()
        invariant
            i <= chars.len() == upper.len() == lower.len(),
            result@ == snake_from(chars@.take(i as int), upper@.take(i as int), lower@.take(i as int)),
            nonempty == (result@.len() > 0),
        decreases chars.len() - i,
    {
        proof {
            lemma_snake_take(chars@, upper@, lower@, i as int);
        }
        if upper[i] {
            if nonempty {
                push_char(&mut result, '_');
            }
            push_char(&mut result, lower[i]);
        } else {
            push_char(&mut result, chars[i]);
        }
        nonempty = true;
        i += 1;
    }
    assert(chars@.take(chars.len() as int) =~= chars@);
    assert(upper@.take(chars.len() as int) =~= upper@);
    assert(lower@.take(chars.len() as int) =~= lower@);
    result
}

/// Converts PascalCase to snake_case: `SensorMessage` becomes
/// `sensor_message`, `HTTPRequest` becomes `h_t_t_p_request`.
pub fn to_snake_case(input: &str) -> (r: String)
    ensures
        r@ == snake_case(input@),
{
    let chars = str_to_chars(input);
    let mut upper: Vec<bool> = Vec::new();
    let mut lower: Vec<char> = Vec::new();
    let mut i: usize = 0;
    while i < chars.len()
        invariant
            i <= chars.len(),
            upper.len() == i,
            lower.len() == i,
            forall|j: int| 0 <= j < i ==> upper@[j] == char_is_uppercase(#[trigger] chars@[j]),
            forall|j: int| 0 <= j < i ==> lower@[j] == char_lowercase_first(#[trigger] chars@[j]),
        decreases chars.len() - i,
    {
        upper.push(is_uppercase(chars[i]));
        lower.push(lowercase_first(chars[i]));
        i += 1;
    }
    assert(upper@ =~= input@.map_values(|c: char| char_is_uppercase(c)));
    assert(lower@ =~= input@.map_values(|c: char| char_lowercase_first(c)));
    snake_case_from(chars.as_slice(), upper.as_slice(), lower.as_slice())
}

/// Names of the generated typed-client items.
#[derive(Debug, Clone)]
pub struct TypedClientNames {
    /// The snake_case method name, e.g. `sensor_message`.
    pub method_name: String,
    /// The client struct name, e.g. `SensorMessageClient`.
    pub client_struct: String,
    /// The extension trait name, e.g. `SensorMessageExt`.
    pub extension_trait: String,
}

impl TypedClientNames {
    /// All names from the struct's name.
    pub fn from_struct_name(struct_name: &str) -> (r: Self)
        ensures
            r.method_name@ == snake_case(struct_name@),
            r.client_struct@ == struct_name@ + "Client"@,
            r.extension_trait@ == struct_name@ + "Ext"@,
    {
        let method_name = to_snake_case(struct_name);
        let mut client_struct = owned_string(struct_name);
        append_chars(&mut client_struct, "Client");
        let mut extension_trait = owned_string(struct_name);
        append_chars(&mut extension_trait, "Ext");
        TypedClientNames { method_name, client_struct, extension_trait }
    }
}

} // verus!

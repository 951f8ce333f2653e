use vstd::prelude::*;

use crate::text::str_eq;

verus! {

/// The ICFP token of the Scheme unary operator `s`, if it has one.
pub open spec fn unary_token(s: Seq<char>) -> Option<Seq<char>> {
    if s == "-"@ {
        Some("U-"@)
    } else if s == "not"@ {
        Some("U!"@)
    } else if s == "string-to-int"@ {
        Some("U#"@)
    } else if s == "int-to-string"@ {
        Some("U$"@)
    } else {
        None
    }
}

/// The Scheme operators written as their own ICFP symbol.
pub open spec fn plain_binary(s: Seq<char>) -> bool {
    s == "+"@ || s == "-"@ || s == "*"@ || s == "/"@ || s == "%"@ || s == "<"@ || s == ">"@ || s
        == "="@ || s == "|"@ || s == "&"@
}

/// The ICFP token of the Scheme binary operator `s`, if it has one.
pub open spec fn binary_token(s: Seq<char>) -> Option<Seq<char>> {
    if plain_binary(s) {
        Some("B"@ + s)
    } else if s == "string-append"@ {
        Some("B."@)
    } else if s == "string-take"@ {
        Some("BT"@)
    } else if s == "string-drop"@ {
        Some("BD"@)
    } else if s == "string=?"@ {
        Some("B="@)
    } else if s == "modulo"@ {
        Some("B%"@)
    } else if s == "div"@ {
        Some("B/"@)
    } else if s == "or"@ {
        Some("B|"@)
    } else {
        None
    }
}

fn some_string(s: &str) -> (r: Option<String>)
    ensures
        r matches Some(t) && t@ == s@,
{
    Some(String::from_str(s))
}

/// The ICFP token of a unary operator of the Scheme dialect.
pub fn unary_op(s: &str) -> (r: Option<String>)
    ensures
        unary_token(s@) matches Some(t) ==> r matches Some(u) && u@ == t,
        unary_token(s@) is None ==> r is None,
{
    if str_eq(s, "-") {
        some_string("U-")
    } else if str_eq(s, "not") {
        some_string("U!")
    } else if str_eq(s, "string-to-int") {
        some_string("U#")
    } else if str_eq(s, "int-to-string") {
        some_string("U$")
    } else {
        None
    }
}

/// The ICFP token of a binary operator of the Scheme dialect.
pub fn binary_op(s: &str) -> (r: Option<String>)
    ensures
        binary_token(s@) matches Some(t) ==> r matches Some(u) && u@ == t,
        binary_token(s@) is None ==> r is None,
{
    if str_eq(s, "+") || str_eq(s, "-") || str_eq(s, "*") || str_eq(s, "/") || str_eq(s, "%")
        || str_eq(s, "<") || str_eq(s, ">") || str_eq(s, "=") || str_eq(s, "|") || str_eq(
        s,
        "&",
    ) {
        Some(String::from_str("B").concat(s))
    } else if str_eq(s, "string-append") {
        some_string("B.")
    } else if str_eq(s, "string-take") {
        some_string("BT")
    } else if str_eq(s, "string-drop") {
        some_string("BD")
    } else if str_eq(s, "string=?") {
        some_string("B=")
    } else if str_eq(s, "modulo") {
        some_string("B%")
    } else if str_eq(s, "div") {
        some_string("B/")
    } else if str_eq(s, "or") {
        some_string("B|")
    } else {
        None
    }
}

/// The greeting.
pub fn hello() -> (r: String)
    ensures
        r@ == "Hello"@,
{
    String::from_str("Hello")
}

/// The greeting, addressed to the world.
pub fn hello_world() -> (r: String)
    ensures
        r@ == "Hello"@ + ", world!"@,
{
    hello().concat(", world!")
}

/// Each plain Scheme operator `s` among `+ - * / % < > = | &` is written as
/// the ICFP token `B` followed by `s` itself, so distinct plain operators
/// get distinct tokens.
pub proof fn law_plain_binary_tokens(s: Seq<char>, t: Seq<char>)
    requires
        s == "+"@ || s == "-"@ || s == "*"@ || s == "/"@ || s == "%"@ || s == "<"@ || s == ">"@ || s == "="@ || s
            == "|"@ || s == "&"@,
        t == "+"@ || t == "-"@ || t == "*"@ || t == "/"@ || t == "%"@ || t == "<"@ || t == ">"@ || t == "="@ || t
            == "|"@ || t == "&"@,
    ensures
        binary_token(s) == Some(seq!['B'] + s),
        binary_token(s) == binary_token(t) ==> s == t,
{
    reveal_strlit("B");
    if binary_token(s) == binary_token(t) {
        assert(binary_token(t) == Some(seq!['B'] + t));
        assert(seq!['B'] + s == seq!['B'] + t);
        assert((seq!['B'] + s).drop_first() =~= s);
        assert((seq!['B'] + t).drop_first() =~= t);
    }
}

/// The operator table of the Scheme dialect: `-`, `not`, `string-to-int`
/// and `int-to-string` are the unary tokens `U-`, `U!`, `U#`, `U$`;
/// `string-append`, `string-take`, `string-drop` and `string=?` are the
/// binary tokens `B.`, `BT`, `BD` and `B=`; `modulo`, `div` and `or` are
/// written as `%`, `/` and `|` are.
pub proof fn law_operator_table()
    ensures
        unary_token("-"@) == Some("U-"@),
        unary_token("not"@) == Some("U!"@),
        unary_token("string-to-int"@) == Some("U#"@),
        unary_token("int-to-string"@) == Some("U$"@),
        binary_token("string-append"@) == Some("B."@),
        binary_token("string-take"@) == Some("BT"@),
        binary_token("string-drop"@) == Some("BD"@),
        binary_token("string=?"@) == Some("B="@),
        binary_token("modulo"@) == binary_token("%"@),
        binary_token("div"@) == binary_token("/"@),
        binary_token("or"@) == binary_token("|"@),
{
    reveal_strlit("+");
    reveal_strlit("-");
    reveal_strlit("*");
    reveal_strlit("/");
    reveal_strlit("%");
    reveal_strlit("<");
    reveal_strlit(">");
    reveal_strlit("=");
    reveal_strlit("|");
    reveal_strlit("&");
    reveal_strlit("string-append");
    reveal_strlit("string-take");
    reveal_strlit("string-drop");
    reveal_strlit("string=?");
    reveal_strlit("modulo");
    reveal_strlit("div");
    reveal_strlit("or");
    reveal_strlit("not");
    reveal_strlit("string-to-int");
    reveal_strlit("int-to-string");
    reveal_strlit("B.");
    reveal_strlit("BT");
    reveal_strlit("BD");
    reveal_strlit("B=");
    reveal_strlit("U-");
    reveal_strlit("U!");
    reveal_strlit("U#");
    reveal_strlit("U$");
    reveal_strlit("B%");
    reveal_strlit("B/");
    reveal_strlit("B|");
    reveal_strlit("B");
    assert("not"@.len() != "-"@.len());
    assert("string-to-int"@.len() != "-"@.len());
    assert("string-to-int"@.len() != "not"@.len());
    assert("int-to-string"@.len() != "-"@.len());
    assert("int-to-string"@.len() != "not"@.len());
    assert("string-append"@.len() == 13);
    assert(!plain_binary("string-append"@));
    assert("string-take"@.len() == 11);
    assert(!plain_binary("string-take"@));
    assert("string-drop"@.len() == 11);
    assert(!plain_binary("string-drop"@));
    assert("string=?"@.len() == 8);
    assert(!plain_binary("string=?"@));
    assert("modulo"@.len() == 6);
    assert(!plain_binary("modulo"@));
    assert("div"@.len() == 3);
    assert(!plain_binary("div"@));
    assert("or"@.len() == 2);
    assert(!plain_binary("or"@));

    assert("B"@ + "%"@ =~= "B%"@);
    assert("B"@ + "/"@ =~= "B/"@);
    assert("B"@ + "|"@ =~= "B|"@);
    assert("int-to-string"@[0] != "string-to-int"@[0]);
    assert("int-to-string"@ != "string-to-int"@);
    assert("string-drop"@[7] != "string-take"@[7]);
    assert("string-drop"@ != "string-take"@);
}

} // verus!

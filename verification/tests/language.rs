use icfp_spica::base94::{decode_base94_int, encode_base94_int};
use icfp_spica::bignum::BigNum;
use icfp_spica::eval::{eval, int_to_str, reduce_to_nf, str_to_int, Stats};
use icfp_spica::expr::{BinOp, Expr, Token, UnOp};

fn bn(n: u32) -> BigNum {
    if n == 0 {
        BigNum { negative: false, magnitude: vec![] }
    } else {
        BigNum { negative: false, magnitude: vec![n] }
    }
}

#[test]
fn encode_decode_int() {
    assert_eq!(decode_base94_int("/6").unwrap(), 1337);
    assert_eq!(encode_base94_int(1337).unwrap(), "/6");
}

#[test]
fn conversion() {
    assert_eq!(str_to_int("test"), bn(15818151));
    assert_eq!(int_to_str(&bn(15818151)), "test");
}

#[test]
fn language_test() {
    let expr = Expr::from_str(r#"? B= B$ B$ B$ B$ L$ L$ L$ L# v$ I" I# I$ I% I$ ? B= B$ L$ v$ I+ I+ ? B= BD I$ S4%34 S4 ? B= BT I$ S4%34 S4%3 ? B= B. S4% S34 S4%34 ? U! B& T F ? B& T T ? U! B| F F ? B| F T ? B< U- I$ U- I# ? B> I$ I# ? B= U- I" B% U- I$ I# ? B= I" B% I( I$ ? B= U- I" B/ U- I$ I# ? B= I# B/ I( I$ ? B= I' B* I# I$ ? B= I$ B+ I" I# ? B= U$ I4%34 S4%34 ? B= U# S4%34 I4%34 ? U! F ? B= U- I$ B- I# I& ? B= I$ B- I& I# ? B= S4%34 S4%34 ? B= F F ? B= I$ I$ ? T B. B. SM%,&k#(%#+}IEj}3%.$}z3/,6%},!.'5!'%y4%34} U$ B+ I# B* I$> I1~s:U@ Sz}4/}#,!)-}0/).43}&/2})4 S)&})3}./4}#/22%#4 S").!29}q})3}./4}#/22%#4 S").!29}q})3}./4}#/22%#4 S").!29}q})3}./4}#/22%#4 S").!29}k})3}./4}#/22%#4 S5.!29}k})3}./4}#/22%#4 S5.!29}_})3}./4}#/22%#4 S5.!29}a})3}./4}#/22%#4 S5.!29}b})3}./4}#/22%#4 S").!29}i})3}./4}#/22%#4 S").!29}h})3}./4}#/22%#4 S").!29}m})3}./4}#/22%#4 S").!29}m})3}./4}#/22%#4 S").!29}c})3}./4}#/22%#4 S").!29}c})3}./4}#/22%#4 S").!29}r})3}./4}#/22%#4 S").!29}p})3}./4}#/22%#4 S").!29}{})3}./4}#/22%#4 S").!29}{})3}./4}#/22%#4 S").!29}d})3}./4}#/22%#4 S").!29}d})3}./4}#/22%#4 S").!29}l})3}./4}#/22%#4 S").!29}N})3}./4}#/22%#4 S").!29}>})3}./4}#/22%#4 S!00,)#!4)/.})3}./4}#/22%#4 S!00,)#!4)/.})3}./4}#/22%#4"#).unwrap();
    assert_eq!(
        eval(&expr).unwrap(),
        Expr::String(
            "Self-check OK, send `solve language_test 4w3s0m3` to claim points for it"
                .to_string()
        )
    );
}

#[test]
fn beta_reductions() {
    let expr = Expr::from_str(r#"B$ B$ L" B$ L# B$ v" B$ v# v# L# B$ v" B$ v# v# L" L# ? B= v# I! I" B$ L$ B+ B$ v" v$ B$ v" v$ B- v# I" I%"#).unwrap();
    let mut stats = Stats::default();
    assert_eq!(reduce_to_nf(&expr, u64::MAX, &mut stats).unwrap(), Expr::Int(bn(16)));
    assert_eq!(stats.beta_reductions, 109);
}

#[test]
fn token_encoded() {
    assert_eq!("T", Token::Bool(true).encoded().to_string().unwrap());
    assert_eq!("F", Token::Bool(false).encoded().to_string().unwrap());
    assert_eq!("I!", Token::Int(bn(0)).encoded().to_string().unwrap());
    assert_eq!("I\"", Token::Int(bn(1)).encoded().to_string().unwrap());
    assert_eq!("I/6", Token::Int(bn(1337)).encoded().to_string().unwrap());
    assert_eq!(
        "SB%,,/}Q/2,$_",
        Token::String("Hello World!".to_string()).encoded().to_string().unwrap()
    );
    assert_eq!("U-", Token::Un(UnOp::Neg).encoded().to_string().unwrap());
    assert_eq!("U!", Token::Un(UnOp::Not).encoded().to_string().unwrap());
    assert_eq!("U#", Token::Un(UnOp::StrToInt).encoded().to_string().unwrap());
    assert_eq!("U$", Token::Un(UnOp::IntToStr).encoded().to_string().unwrap());
    assert_eq!("B+", Token::Bin(BinOp::Add).encoded().to_string().unwrap());
    assert_eq!("BT", Token::Bin(BinOp::Take).encoded().to_string().unwrap());
    assert_eq!("BD", Token::Bin(BinOp::Drop).encoded().to_string().unwrap());
    assert_eq!("B$", Token::Bin(BinOp::App).encoded().to_string().unwrap());
    assert_eq!("?", Token::If.encoded().to_string().unwrap());
    assert_eq!("L#", Token::Lambda(2).encoded().to_string().unwrap());
    assert_eq!("v#", Token::Var(2).encoded().to_string().unwrap());
    assert_eq!("B~", Token::Bin(BinOp::AppL).encoded().to_string().unwrap());
    assert_eq!("B!", Token::Bin(BinOp::AppV).encoded().to_string().unwrap());
}

#[test]
fn expr_encoded() {
    let eff12 = r#"B$ B$ L" B$ L# B$ v" B$ v# v# L# B$ v" B$ v# v# L$ L% B$ B$ L" L# ? B< v" v# v" v# v% B+ I" ? B> v% I# B$ B$ B$ L" B$ L# B$ v" B$ v# v# L# B$ v" B$ v# v# L& L' L( ? B= v' v% v( B$ B$ v& B+ v' I" ? B> B$ v$ v' B- v' I" ? B= B% v% v' I! B* B/ v( B$ v$ v' B- B$ v$ v' I" v( v( I# v% v% I"Ndb"#;
    let expr = Expr::from_str(eff12).unwrap();
    assert_eq!(eff12, expr.encoded().to_string().unwrap());
}

#[test]
fn negative_numbers_have_no_token() {
    let minus_one = BigNum { negative: true, magnitude: vec![1] };
    assert!(Token::Int(minus_one).encoded().to_string().is_err());
}

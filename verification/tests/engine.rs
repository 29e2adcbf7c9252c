use neophanim::Graph;

// Reference decimal arithmetic for the expected values: digit-vector
// schoolbook operations and repeated halving for binary conversion.

fn digits_to_string(d: &[u32]) -> String {
    let mut i = d.len();
    while i > 1 && d[i - 1] == 0 {
        i -= 1;
    }
    d[..i].iter().rev().map(|&x| char::from(b'0' + x as u8)).collect()
}

fn dec_add(a: &str, b: &str) -> String {
    let ad: Vec<u32> = a.bytes().rev().map(|c| (c - b'0') as u32).collect();
    let bd: Vec<u32> = b.bytes().rev().map(|c| (c - b'0') as u32).collect();
    let n = if ad.len() > bd.len() { ad.len() } else { bd.len() };
    let mut out: Vec<u32> = Vec::new();
    let mut carry = 0u32;
    for i in 0..n {
        let s = carry + ad.get(i).copied().unwrap_or(0) + bd.get(i).copied().unwrap_or(0);
        out.push(s % 10);
        carry = s / 10;
    }
    if carry > 0 {
        out.push(carry);
    }
    digits_to_string(&out)
}

fn dec_mul(a: &str, b: &str) -> String {
    let ad: Vec<u32> = a.bytes().rev().map(|c| (c - b'0') as u32).collect();
    let bd: Vec<u32> = b.bytes().rev().map(|c| (c - b'0') as u32).collect();
    let mut acc = vec![0u64; ad.len() + bd.len()];
    for (i, &x) in ad.iter().enumerate() {
        for (j, &y) in bd.iter().enumerate() {
            acc[i + j] += (x as u64) * (y as u64);
        }
    }
    let mut carry = 0u64;
    let mut digs: Vec<u32> = Vec::new();
    for v in acc {
        let s = v + carry;
        digs.push((s % 10) as u32);
        carry = s / 10;
    }
    while carry > 0 {
        digs.push((carry % 10) as u32);
        carry /= 10;
    }
    digits_to_string(&digs)
}

fn dec_to_bin(s: &str) -> String {
    let mut digs: Vec<u32> = s.bytes().map(|c| (c - b'0') as u32).collect();
    let mut bits: Vec<char> = Vec::new();
    while digs.iter().any(|&d| d != 0) {
        let mut rem = 0u32;
        for d in digs.iter_mut() {
            let cur = rem * 10 + *d;
            *d = cur / 2;
            rem = cur % 2;
        }
        bits.push(if rem == 1 { '1' } else { '0' });
    }
    if bits.is_empty() {
        bits.push('0');
    }
    bits.iter().rev().collect()
}

fn test_pair_fwd(a: &str, b: &str) {
    let a_2 = dec_to_bin(a);
    let b_2 = dec_to_bin(b);
    let sum_2 = dec_to_bin(&dec_add(a, b));
    let mul_2 = dec_to_bin(&dec_mul(a, b));

    let mut g = Graph::new();

    let g_a = g.register_number(a_2.clone());
    assert_eq!(g.extract_number(&g_a), a_2);

    let g_b = g.register_number(b_2.clone());
    assert_eq!(g.extract_number(&g_b), b_2);

    let g_sum = g.add_numbers(&g_a, &g_b);
    g.collapse_fwd();
    assert_eq!(g.extract_number(&g_sum), sum_2);

    let g_mul = g.mul_numbers(&g_a, &g_b);
    g.collapse_fwd();
    assert_eq!(g.extract_number(&g_mul), mul_2);
}

#[test]
fn test_mini_fwd() {
    test_pair_fwd("2", "3");
    test_pair_fwd("3", "5");
    test_pair_fwd("5", "7");
    test_pair_fwd("11", "23");
    test_pair_fwd("73", "97");
}

#[test]
fn test_rsa100_fwd() {
    test_pair_fwd(
        "37975227936943673922808872755445627854565536638199",
        "40094690950920881030683735292761468389214899724061",
    );
}

#[test]
fn test_rsa170_fwd() {
    test_pair_fwd(
        "3586420730428501486799804587268520423291459681059978161140231860633948450858040593963",
        "7267029064107019078863797763923946264136137803856996670313708936002281582249587494493",
    );
}

#[test]
fn test_rsa250_fwd() {
    test_pair_fwd(
        "64135289477071580278790190170577389084825014742943447208116859632024532344630238623598752668347708737661925585694639798853367",
        "33372027594978156556226010605355114227940760344767554666784520987023841729210037080257448673296881877565718986258036932062711",
    );
}

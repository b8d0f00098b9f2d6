use typepaste::progress::progress_bar;

#[test]
fn progress_bar_boundaries() {
    assert!(
        progress_bar(0, 100, 30).contains("0.0%")
            && progress_bar(0, 100, 30).contains("(0/100)")
    );
    assert!(progress_bar(50, 100, 30).contains("50.0%"));
    assert!(
        progress_bar(100, 100, 30).contains("100.0%")
            && progress_bar(100, 100, 30).contains("(100/100)")
    );
}

#[test]
fn progress_bar_clamps_overflow() {
    assert!(progress_bar(150, 100, 30).contains("100.0%"));
}

#[test]
fn progress_bar_zero_total() {
    assert!(progress_bar(0, 0, 30).contains("100.0%"));
}

#[test]
fn progress_bar_format_tokens() {
    let s = progress_bar(3, 10, 30);
    for t in ["[", "]", "%", "(", "/", "3/10"] {
        assert!(s.contains(t), "missing {t} in {s}");
    }
}

#[test]
fn progress_bar_exact_text() {
    assert_eq!(
        progress_bar(3, 10, 10),
        "[███░░░░░░░]  30.0% (3/10)"
    );
    assert_eq!(progress_bar(0, 7, 4), "[░░░░]   0.0% (0/7)");
    assert_eq!(progress_bar(9, 7, 4), "[████] 100.0% (9/7)");
    assert_eq!(progress_bar(1, 0, 0), "[] 100.0% (1/0)");
}

fn in_floats(done: usize, total: usize, bar_len: usize) -> String {
    let ratio = if total == 0 {
        1.0
    } else {
        (done as f64 / total as f64).clamp(0.0, 1.0)
    };
    let filled = (bar_len as f64 * ratio) as usize;
    let bar: String = "█".repeat(filled) + &"░".repeat(bar_len - filled);
    format!("[{}] {:5.1}% ({}/{})", bar, ratio * 100.0, done, total)
}

#[test]
fn progress_bar_as_with_floats() {
    for total in 0..230usize {
        for done in 0..=total + 1 {
            for len in [0usize, 1, 7, 10, 30, 100] {
                assert_eq!(progress_bar(done, total, len), in_floats(done, total, len));
            }
        }
    }
}

#[test]
fn progress_bar_as_with_floats_large() {
    let mut x: u64 = 0x9e37_79b9_7f4a_7c15;
    let mut next = || {
        x ^= x << 13;
        x ^= x >> 7;
        x ^= x << 17;
        x
    };
    for _ in 0..4000 {
        let a = (next() >> (next() % 64)) as usize;
        let b = (next() >> (next() % 64)) as usize;
        let len = (next() % 200) as usize;
        assert_eq!(progress_bar(a, b, len), in_floats(a, b, len));
    }
    // Where the product with the length of the bar is rounded.
    for total in [3usize, 49, 98, 103, 107, 1000, 65535] {
        for done in 0..=total.min(1000) {
            let len = total.min(1000);
            assert_eq!(progress_bar(done, total, len), in_floats(done, total, len));
        }
    }
    for done in [1usize << 53, (1 << 53) + 1, usize::MAX - 1, usize::MAX] {
        for total in [(1usize << 53) + 1, (1 << 53) + 3, usize::MAX] {
            assert_eq!(progress_bar(done, total, 50), in_floats(done, total, 50));
        }
    }
}

use selector::{attempt, Entry};

#[test]
fn example_1() {
    let available = [240, 360, 720];
    let allowed = [Entry::Value(360), Entry::Value(720)];
    let preferred = [Entry::Value(1080)];

    // 1080 is above every present value, so the last present value stands for it.
    assert_eq!([720], attempt(&available, &allowed, &preferred).as_slice());
}

#[test]
fn example_2() {
    let available = [240, 720];
    let allowed = [Entry::Value(360), Entry::Value(720)];
    let preferred = [Entry::Value(1080)];

    assert_eq!([720], attempt(&available, &allowed, &preferred).as_slice());
}

#[test]
fn example_3() {
    let available = [240];
    let allowed = [Entry::Value(360), Entry::Value(720)];
    let preferred = [Entry::Value(1080)];

    assert_eq!([0; 0], attempt(&available, &allowed, &preferred).as_slice());
}

#[test]
fn example_4() {
    let available = [240, 360, 720];
    let allowed = [Entry::Value(240), Entry::Value(360), Entry::Value(720), Entry::Value(1080)];
    let preferred = [Entry::Value(240), Entry::Value(360)];

    assert_eq!([240, 360], attempt(&available, &allowed, &preferred).as_slice());
}

#[test]
fn example_5() {
    let available = [240, 720];
    let allowed = [Entry::Value(240), Entry::Value(360), Entry::Value(720), Entry::Value(1080)];
    let preferred = [Entry::Value(240), Entry::Value(360)];

    assert_eq!([240, 720], attempt(&available, &allowed, &preferred).as_slice());
}

#[test]
fn example_6() {
    let available = [240, 720];
    let allowed = [Entry::Value(240), Entry::Value(360), Entry::Value(1080)];
    let preferred = [Entry::Value(240), Entry::Value(360)];

    assert_eq!([240], attempt(&available, &allowed, &preferred).as_slice());
}

#[test]
fn example_7() {
    let available = [720];
    let allowed = [Entry::Value(240), Entry::Value(360), Entry::Value(1080)];
    let preferred = [Entry::Value(240), Entry::Value(360)];

    assert_eq!([0; 0], attempt(&available, &allowed, &preferred).as_slice());
}

#[test]
fn example_8() {
    let available = [240, 360];
    let allowed = [Entry::Value(240), Entry::Value(360)];
    let preferred = [Entry::Value(720), Entry::Value(1080)];

    assert_eq!([360], attempt(&available, &allowed, &preferred).as_slice());
}

#[test]
fn example_9() {
    let available = [240, 360, 720];
    let allowed = [Entry::Value(360), Entry::Any];
    let preferred = [Entry::Value(360), Entry::Value(720)];

    assert_eq!([360, 720], attempt(&available, &allowed, &preferred).as_slice());
}

#[test]
fn example_10() {
    let available = [240, 360, 720];
    let allowed = [Entry::Value(240), Entry::Value(360), Entry::Value(720)];
    let preferred = [Entry::Any, Entry::Value(720)];

    assert_eq!([240, 360, 720], attempt(&available, &allowed, &preferred).as_slice());
}

#[test]
fn example_11() {
    let available = [240, 360, 720];
    let allowed = [Entry::Value(360), Entry::Value(1080)];
    let preferred = [Entry::Any, Entry::Value(720)];

    assert_eq!([360], attempt(&available, &allowed, &preferred).as_slice());
}

#[test]
fn example_12() {
    let available = [240, 360, 720];
    let allowed = [Entry::Value(1080)];
    let preferred = [Entry::Any, Entry::Value(720)];

    assert_eq!([0; 0], attempt(&available, &allowed, &preferred).as_slice());
}

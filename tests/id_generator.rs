use chrono::{DateTime, Utc};
use utrakr::id_generator::{
    id_from_ts_and_random, IdGenerator, ALPHABET, CRAZY_ALPHABET, MAX_SECONDS, OUR_EPOCH_SECONDS,
};

#[test]
fn id_generator_simple() {
    let s1 = IdGenerator::new(7).gen_id().unwrap();
    println!("{}", s1);
    assert_eq!(s1.len(), 7);
    let s2 = IdGenerator::new(8).gen_id().unwrap();
    println!("{}", s2);
    assert_eq!(s2.len(), 8);
}

#[test]
fn exact() {
    let now = "2020-05-23T15:00:00Z".parse::<DateTime<Utc>>().unwrap();
    let dur = (now.timestamp() - OUR_EPOCH_SECONDS) as u32;

    let a = ALPHABET;
    assert_eq!(id_from_ts_and_random(a, 7, 0, 1), "aaaaaab");
    assert_eq!(id_from_ts_and_random(a, 7, 0, 2), "aaaaaba");
    assert_eq!(id_from_ts_and_random(a, 7, 0, 3), "aaaaabb");
    assert_eq!(id_from_ts_and_random(a, 7, 0, 2_u32.pow(11)), "Gaaaaaa");
    assert_eq!(id_from_ts_and_random(a, 7, 0, 2_u32.pow(12)), "aaaaaaa");
    assert_eq!(id_from_ts_and_random(a, 8, 0, 2_u32.pow(12)), "baaaaaaa");
    assert_eq!(id_from_ts_and_random(a, 7, 1, 0), "aaaaaac");
    assert_eq!(id_from_ts_and_random(a, 7, MAX_SECONDS - 1, 0), "a______");

    // test some rnd
    assert_eq!(id_from_ts_and_random(a, 7, dur, 2_u32.pow(6)), "baw0SwG");
    assert_eq!(id_from_ts_and_random(a, 7, dur, 2_u32.pow(7)), "caw0SwG");
    assert_eq!(id_from_ts_and_random(a, 7, dur, 2_u32.pow(11)), "Gaw0SwG");

    // overflow for 7
    assert_eq!(id_from_ts_and_random(a, 7, dur, 2_u32.pow(12)), "aaw0SwG");
    // works for 8
    assert_eq!(id_from_ts_and_random(a, 8, dur, 2_u32.pow(12)), "baaw0SwG");
}

#[test]
fn gen_id_at_uses_shuffled_alphabet() {
    let gen = IdGenerator::new(8);
    let millis = OUR_EPOCH_SECONDS * 1000 + 5_000;
    assert_eq!(
        gen.gen_id_at(millis, 7),
        Some(id_from_ts_and_random(CRAZY_ALPHABET, 8, 5, 7))
    );
    assert_eq!(id_from_ts_and_random(CRAZY_ALPHABET, 7, 0, 0), "ppppppp");
}

#[test]
fn gen_id_at_out_of_range() {
    let gen = IdGenerator::new(8);
    assert_eq!(gen.gen_id_at(OUR_EPOCH_SECONDS * 1000 - 1, 0), None);
    let end = (OUR_EPOCH_SECONDS + MAX_SECONDS as i64) * 1000;
    assert_eq!(gen.gen_id_at(end, 0), None);
    assert!(gen.gen_id_at(end - 1000, 0).is_some());
}

use lsm_compaction::{Command, CommandStream, Rng};

#[test]
fn the_generator_multiplies_and_adds_one() {
    let mut rng = Rng::new(0);
    assert_eq!(rng.next(), 1);
    assert_eq!(rng.next(), 6_364_136_223_846_793_006);
    let mut wrapping = Rng::new(2);
    assert_eq!(wrapping.next(), 12_728_272_447_693_586_011);
    let mut largest = Rng::new(u64::MAX);
    assert_eq!(largest.next(), 12_082_607_849_862_758_612);
}

#[test]
fn a_command_takes_its_parts_from_the_generator() {
    let seed = 0x1234_5678_9abc_def0;
    let mut rng = Rng::new(seed);
    let mut stream = CommandStream::new(seed, 1_000);
    for _ in 0..1_000 {
        let key = (rng.next() % 1_000) as u32;
        let expected = match rng.next() % 10 {
            0..=4 => Command::Put { key, value: rng.next() },
            5..=7 => Command::Delete { key },
            _ => Command::Get { key },
        };
        assert_eq!(stream.next(), Some(expected));
    }
}

#[test]
fn keys_stay_below_the_bound() {
    let mut stream = CommandStream::new(7, 3);
    let mut seen = [false; 3];
    for _ in 0..200 {
        let key = match stream.next().unwrap() {
            Command::Put { key, .. } => key,
            Command::Get { key } => key,
            Command::Delete { key } => key,
        };
        seen[key as usize] = true;
    }
    assert_eq!(seen, [true; 3]);
}

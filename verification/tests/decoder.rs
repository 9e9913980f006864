use pms5003::{checksum, Absolutes, Concentrations, Error, Measurement, Poll, PMS5003};

type Outcome = Option<Result<Measurement, Error<u8>>>;

/// Hands the bytes to the driver one by one until one of them brings a
/// result; returns it with the number of bytes handed over.
fn feed(driver: &mut PMS5003, bytes: &[u8]) -> (Outcome, usize) {
    for (i, byte) in bytes.iter().enumerate() {
        let step = driver.measure(Poll::Ready(*byte));
        if step.is_some() {
            return (step, i + 1);
        }
    }
    (None, bytes.len())
}

fn frame_with(length: [u8; 2], payload: [u8; 26], trailer: [u8; 2]) -> Vec<u8> {
    let mut frame = vec![0x42u8, 0x4D, length[0], length[1]];
    frame.extend_from_slice(&payload);
    frame.extend_from_slice(&trailer);
    frame
}

fn zero_frame() -> Vec<u8> {
    frame_with([0x00, 0x1C], [0u8; 26], [0x00, 0xAB])
}

fn sample_payload() -> [u8; 26] {
    [
        0x00, 0x05, 0x00, 0x08, 0x00, 0x09, 0x00, 0x05, 0x00, 0x08, 0x00, 0x09, 0x03, 0x84,
        0x01, 0x0E, 0x00, 0x2E, 0x00, 0x04, 0x00, 0x02, 0x00, 0x01, 0x97, 0x00,
    ]
}

fn sample_measurement() -> Measurement {
    Measurement {
        ug_per_m3: Concentrations { pm1p0: 5, pm2p5: 8, pm10p0: 9 },
        ug_per_m3_atmospheric: Concentrations { pm1p0: 5, pm2p5: 8, pm10p0: 9 },
        per_0p1l: Absolutes { pm0p3: 900, pm0p5: 270, pm1p0: 46, pm2p5: 4, pm5p0: 2, pm10p0: 1 },
    }
}

fn sample_frame() -> Vec<u8> {
    frame_with([0x00, 0x1C], sample_payload(), [0x02, 0x39])
}

#[test]
fn zero_frame_measures_all_zero() {
    let mut driver = PMS5003::new();
    let (step, used) = feed(&mut driver, &zero_frame());
    assert_eq!(step, Some(Ok(Measurement::parse([0u8; 26]))));
    assert_eq!(used, 32);
    let m = step.unwrap().unwrap();
    assert_eq!(m.ug_per_m3, Concentrations { pm1p0: 0, pm2p5: 0, pm10p0: 0 });
    assert_eq!(m.ug_per_m3_atmospheric, Concentrations { pm1p0: 0, pm2p5: 0, pm10p0: 0 });
    assert_eq!(
        m.per_0p1l,
        Absolutes { pm0p3: 0, pm0p5: 0, pm1p0: 0, pm2p5: 0, pm5p0: 0, pm10p0: 0 }
    );
}

#[test]
fn zero_trailer_fails_with_both_sums() {
    let mut driver = PMS5003::new();
    let frame = frame_with([0x00, 0x1C], [0u8; 26], [0x00, 0x00]);
    let (step, used) = feed(&mut driver, &frame);
    assert_eq!(step, Some(Err(Error::InvalidData(0xAB, 0x00))));
    assert_eq!(used, 32);
}

#[test]
fn trailer_that_leaves_out_the_length_field_fails() {
    let mut driver = PMS5003::new();
    let frame = frame_with([0x00, 0x1C], [0u8; 26], [0x00, 0x8F]);
    let (step, used) = feed(&mut driver, &frame);
    assert_eq!(step, Some(Err(Error::InvalidData(0xAB, 0x8F))));
    assert_eq!(used, 32);
}

#[test]
fn length_of_26_fails_before_the_payload() {
    let mut driver = PMS5003::new();
    let frame = frame_with([0x00, 0x1A], [0u8; 26], [0x00, 0x8D]);
    let (step, used) = feed(&mut driver, &frame);
    assert_eq!(step, Some(Err(Error::InvalidLength(26))));
    assert_eq!(used, 4);
}

#[test]
fn sample_frame_measures_its_fields() {
    let mut driver = PMS5003::new();
    let (step, used) = feed(&mut driver, &sample_frame());
    assert_eq!(step, Some(Ok(sample_measurement())));
    assert_eq!(used, 32);
}

#[test]
fn every_byte_but_the_last_asks_for_more() {
    let mut driver = PMS5003::new();
    let frame = sample_frame();
    for byte in &frame[..31] {
        assert_eq!(driver.measure::<u8>(Poll::Ready(*byte)), None);
    }
    assert_eq!(driver.measure::<u8>(Poll::Ready(frame[31])), Some(Ok(sample_measurement())));
}

#[test]
fn noise_before_a_frame_is_skipped() {
    let noises: [&[u8]; 6] = [
        &[],
        &[0x00],
        &[0xFF, 0x4D, 0x4D, 0x00, 0x1C],
        &[0x42, 0x42],
        &[0x42, 0x00, 0x4D, 0x42, 0x10],
        &[0x42, 0x42, 0x4D, 0x07],
    ];
    for noise in noises.iter() {
        let mut stream = noise.to_vec();
        stream.extend_from_slice(&sample_frame());
        stream.extend_from_slice(&[0xEE, 0x42, 0x4D]);
        let mut driver = PMS5003::new();
        let (step, used) = feed(&mut driver, &stream);
        assert_eq!(step, Some(Ok(sample_measurement())));
        assert_eq!(used, noise.len() + 32);
    }
}

#[test]
fn half_a_marker_before_a_frame_hides_it() {
    let mut stream = vec![0x42u8];
    stream.extend_from_slice(&zero_frame());
    let mut driver = PMS5003::new();
    let (step, used) = feed(&mut driver, &stream);
    assert_eq!(step, None);
    assert_eq!(used, 33);
    let (step, used) = feed(&mut driver, &sample_frame());
    assert_eq!(step, Some(Ok(sample_measurement())));
    assert_eq!(used, 32);
}

#[test]
fn wrong_length_is_reported_with_its_value() {
    let lengths: [([u8; 2], u16); 5] = [
        ([0x00, 0x00], 0),
        ([0x00, 0x1B], 27),
        ([0x00, 0x1D], 29),
        ([0x1C, 0x00], 0x1C00),
        ([0xFF, 0xFF], 0xFFFF),
    ];
    for (raw, value) in lengths.iter() {
        let mut stream = vec![0x13u8, 0x37];
        stream.extend_from_slice(&frame_with(*raw, [0u8; 26], [0, 0]));
        let mut driver = PMS5003::new();
        let (step, used) = feed(&mut driver, &stream);
        assert_eq!(step, Some(Err(Error::InvalidLength(*value))));
        assert_eq!(used, 6);
    }
}

#[test]
fn wrong_checksum_is_reported_and_gives_no_measurement() {
    let mut driver = PMS5003::new();
    let frame = frame_with([0x00, 0x1C], sample_payload(), [0x02, 0x3A]);
    let (step, used) = feed(&mut driver, &frame);
    assert_eq!(step, Some(Err(Error::InvalidData(0x0239, 0x023A))));
    assert_eq!(used, 32);

    let mut payload = sample_payload();
    payload[25] = 0x01;
    let frame = frame_with([0x00, 0x1C], payload, [0x02, 0x39]);
    let (step, _) = feed(&mut driver, &frame);
    assert_eq!(step, Some(Err(Error::InvalidData(0x023A, 0x0239))));
}

#[test]
fn reserved_bytes_count_in_the_checksum() {
    let mut payload = [0u8; 26];
    payload[24] = 0x10;
    let mut driver = PMS5003::new();
    let (step, _) = feed(&mut driver, &frame_with([0x00, 0x1C], payload, [0x00, 0xAB]));
    assert_eq!(step, Some(Err(Error::InvalidData(0xBB, 0xAB))));
    let (step, _) = feed(&mut driver, &frame_with([0x00, 0x1C], payload, [0x00, 0xBB]));
    assert_eq!(step, Some(Ok(Measurement::parse([0u8; 26]))));
}

#[test]
fn trailer_of_a_measured_frame_is_its_checksum() {
    let frame = sample_frame();
    let mut driver = PMS5003::new();
    let (step, _) = feed(&mut driver, &frame);
    assert!(matches!(step, Some(Ok(_))));
    let again = checksum(&frame[..30]);
    assert_eq!(again, 0x0239);
    assert_eq!(again, ((frame[30] as u16) << 8) | (frame[31] as u16));
}

#[test]
fn largest_payload_has_the_largest_checksum() {
    let frame = frame_with([0x00, 0x1C], [0xFFu8; 26], [0x1A, 0x91]);
    let mut driver = PMS5003::new();
    let (step, _) = feed(&mut driver, &frame);
    let m = step.unwrap().unwrap();
    assert_eq!(m.ug_per_m3.pm1p0, 0xFFFF);
    assert_eq!(m.per_0p1l.pm10p0, 0xFFFF);
}

#[test]
fn would_block_changes_nothing() {
    let mut driver = PMS5003::new();
    assert_eq!(driver.measure::<u8>(Poll::WouldBlock), None);
    for byte in sample_frame() {
        assert_eq!(driver.measure::<u8>(Poll::WouldBlock), None);
        let step = driver.measure::<u8>(Poll::Ready(byte));
        if let Some(result) = step {
            assert_eq!(result, Ok(sample_measurement()));
            return;
        }
    }
    panic!("the frame settled nothing");
}

#[test]
fn port_failure_is_handed_on() {
    let mut driver = PMS5003::new();
    assert_eq!(driver.measure(Poll::Failed(7u8)), Some(Err(Error::Serial(7u8))));

    let mut driver = PMS5003::new();
    let frame = sample_frame();
    let (step, _) = feed(&mut driver, &frame[..10]);
    assert_eq!(step, None);
    assert_eq!(driver.measure(Poll::Failed(9u8)), Some(Err(Error::Serial(9u8))));
}

#[test]
fn port_failure_abandons_the_frame() {
    let mut driver = PMS5003::new();
    let frame = sample_frame();
    let (step, _) = feed(&mut driver, &frame[..10]);
    assert_eq!(step, None);
    assert_eq!(driver.measure(Poll::Failed(1u8)), Some(Err(Error::Serial(1u8))));
    let (step, used) = feed(&mut driver, &frame[10..]);
    assert_eq!(step, None);
    assert_eq!(used, 22);
}

#[test]
fn fresh_frame_measures_after_a_wrong_length() {
    let mut driver = PMS5003::new();
    let (step, _) = feed(&mut driver, &[0x42, 0x4D, 0x00, 0x1A]);
    assert_eq!(step, Some(Err(Error::InvalidLength(26))));
    let (step, used) = feed(&mut driver, &sample_frame());
    assert_eq!(step, Some(Ok(sample_measurement())));
    assert_eq!(used, 32);
}

#[test]
fn fresh_frame_measures_after_a_wrong_checksum() {
    let mut driver = PMS5003::new();
    let (step, _) = feed(&mut driver, &frame_with([0x00, 0x1C], [0u8; 26], [0x00, 0x00]));
    assert_eq!(step, Some(Err(Error::InvalidData(0xAB, 0x00))));
    let (step, used) = feed(&mut driver, &zero_frame());
    assert_eq!(step, Some(Ok(Measurement::parse([0u8; 26]))));
    assert_eq!(used, 32);
}

#[test]
fn fresh_frame_measures_after_a_port_failure() {
    let mut driver = PMS5003::new();
    let (step, _) = feed(&mut driver, &[0x42, 0x4D, 0x00]);
    assert_eq!(step, None);
    assert_eq!(driver.measure(Poll::Failed(3u8)), Some(Err(Error::Serial(3u8))));
    let (step, used) = feed(&mut driver, &sample_frame());
    assert_eq!(step, Some(Ok(sample_measurement())));
    assert_eq!(used, 32);
}

#[test]
fn frames_measure_one_after_another() {
    let mut stream = zero_frame();
    stream.extend_from_slice(&[0x00, 0x42]);
    stream.extend_from_slice(&[0x42]);
    stream.extend_from_slice(&sample_frame());
    let mut driver = PMS5003::new();
    let (first, used) = feed(&mut driver, &stream);
    assert_eq!(first, Some(Ok(Measurement::parse([0u8; 26]))));
    let (second, more) = feed(&mut driver, &stream[used..]);
    assert_eq!(second, Some(Ok(sample_measurement())));
    assert_eq!(used + more, stream.len());
}

#[test]
fn marker_inside_a_payload_is_payload() {
    let mut payload = [0u8; 26];
    payload[3] = 0x42;
    payload[4] = 0x4D;
    let sum: u16 = 0xAB + 0x42 + 0x4D;
    let frame = frame_with([0x00, 0x1C], payload, [(sum >> 8) as u8, (sum & 0xFF) as u8]);
    let mut driver = PMS5003::new();
    let (step, used) = feed(&mut driver, &frame);
    assert_eq!(step, Some(Ok(Measurement::parse(payload))));
    assert_eq!(used, 32);
}

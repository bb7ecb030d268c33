use meter_panel::meter::{create_meter, meter_id, provides, resolve, MeterError, MeterKind};

#[test]
fn meter_id_is_the_xxh3_hash_of_the_name() {
    assert_eq!(meter_id(""), 0x2D06800538D394C2);
    assert_eq!(
        meter_id("CPU:PERCENTAGE"),
        xxhash_rust::xxh3::xxh3_64(b"CPU:PERCENTAGE")
    );
    assert_eq!(
        meter_id("CPU:TEMPERATURE"),
        xxhash_rust::xxh3::xxh3_64(b"CPU:TEMPERATURE")
    );
}

#[test]
fn meter_id_depends_on_the_name() {
    assert_ne!(meter_id("CPU:PERCENTAGE"), meter_id("CPU:TEMPERATURE"));
    assert_ne!(meter_id("CPU:PERCENTAGE"), meter_id("cpu:percentage"));
    assert_eq!(meter_id("CPU:PERCENTAGE"), meter_id("CPU:PERCENTAGE"));
}

#[test]
fn kinds_are_known_by_the_hash_of_their_names() {
    assert_eq!(MeterKind::CpuPercentage.name(), "CPU:PERCENTAGE");
    assert_eq!(MeterKind::CpuTemperature.name(), "CPU:TEMPERATURE");
    assert_eq!(MeterKind::CpuPercentage.id(), meter_id("CPU:PERCENTAGE"));
    assert_eq!(MeterKind::CpuTemperature.id(), meter_id("CPU:TEMPERATURE"));
}

#[test]
fn resolve_finds_registered_kinds_only() {
    assert_eq!(
        resolve(meter_id("CPU:PERCENTAGE")),
        Some(MeterKind::CpuPercentage)
    );
    assert_eq!(
        resolve(meter_id("CPU:TEMPERATURE")),
        Some(MeterKind::CpuTemperature)
    );
    assert_eq!(resolve(meter_id("GPU:PERCENTAGE")), None);
    assert_eq!(resolve(0), None);
}

#[test]
fn create_meter_gives_the_kind_that_the_host_provides() {
    let available = vec![MeterKind::CpuPercentage, MeterKind::CpuTemperature];
    assert_eq!(
        create_meter(meter_id("CPU:PERCENTAGE"), &available),
        Ok(MeterKind::CpuPercentage)
    );
    assert_eq!(
        create_meter(meter_id("CPU:TEMPERATURE"), &available),
        Ok(MeterKind::CpuTemperature)
    );
}

#[test]
fn create_meter_rejects_an_unknown_id() {
    let available = vec![MeterKind::CpuPercentage, MeterKind::CpuTemperature];
    assert_eq!(
        create_meter(meter_id("DISK:USAGE"), &available),
        Err(MeterError::UnknownMeter)
    );
    assert_eq!(create_meter(12345, &Vec::new()), Err(MeterError::UnknownMeter));
}

#[test]
fn create_meter_reports_a_meter_that_the_host_lacks() {
    let available = vec![MeterKind::CpuPercentage];
    assert_eq!(
        create_meter(meter_id("CPU:TEMPERATURE"), &available),
        Err(MeterError::Unavailable)
    );
    assert_eq!(
        create_meter(meter_id("CPU:PERCENTAGE"), &Vec::new()),
        Err(MeterError::Unavailable)
    );
}

#[test]
fn provides_looks_through_the_whole_list() {
    let kinds = vec![MeterKind::CpuTemperature, MeterKind::CpuPercentage];
    assert!(provides(&kinds, MeterKind::CpuPercentage));
    assert!(provides(&kinds, MeterKind::CpuTemperature));
    assert!(!provides(&Vec::new(), MeterKind::CpuPercentage));
}

#[test]
fn meter_errors_describe_themselves() {
    assert_eq!(MeterError::UnknownMeter.message(), "invalid meter");
    assert_eq!(MeterError::Unavailable.message(), "meter unavailable");
    assert_eq!(MeterError::MeasurementFailed.message(), "measurement failed");
}

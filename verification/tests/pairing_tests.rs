use ipa_personalizer::error::{ErrorKind, ValidationError};
use ipa_personalizer::pairing::{
    PairingAction, PairingState, PairingValidator, DEBUG_DOMAIN, DEBUG_SETTING,
};

struct PairingMockDevice {
    probe_results: Vec<bool>,
    probes: usize,
    enable_ok: bool,
    pair_ok: bool,
    log: Vec<PairingAction>,
}

impl PairingMockDevice {
    fn perform(&mut self, action: PairingAction) -> bool {
        self.log.push(action);
        match action {
            PairingAction::Probe => {
                let result = self.probe_results.get(self.probes).copied().unwrap_or(false);
                self.probes += 1;
                result
            }
            PairingAction::EnableDebug => self.enable_ok,
            PairingAction::Pair => self.pair_ok,
            PairingAction::Stop => panic!("nothing to perform"),
        }
    }
}

fn pairing_run(limit: u32, device: &mut PairingMockDevice) -> PairingValidator {
    let mut validator = PairingValidator::new(limit);
    let mut steps = 0;
    while !validator.settled() {
        let outcome = device.perform(validator.next_action());
        validator.advance(outcome);
        steps += 1;
        assert!(steps <= 4 * limit as usize + 1);
    }
    validator
}

#[test]
fn validator_converges_after_two_failed_probes() {
    let mut device = PairingMockDevice {
        probe_results: vec![false, false, true],
        probes: 0,
        enable_ok: true,
        pair_ok: true,
        log: vec![],
    };
    let validator = pairing_run(3, &mut device);
    assert_eq!(validator.state(), PairingState::Valid);
    assert_eq!(
        device.log,
        vec![
            PairingAction::Probe,
            PairingAction::EnableDebug,
            PairingAction::Probe,
            PairingAction::Pair,
            PairingAction::Probe,
        ]
    );
    let debug_enables = device.log.iter().filter(|a| **a == PairingAction::EnableDebug).count();
    let pairings = device.log.iter().filter(|a| **a == PairingAction::Pair).count();
    assert_eq!(debug_enables, 1);
    assert_eq!(pairings, 1);
}

#[test]
fn validator_is_valid_at_once_when_the_probe_succeeds() {
    let mut device = PairingMockDevice {
        probe_results: vec![true],
        probes: 0,
        enable_ok: false,
        pair_ok: false,
        log: vec![],
    };
    let validator = pairing_run(3, &mut device);
    assert_eq!(validator.state(), PairingState::Valid);
    assert_eq!(device.log, vec![PairingAction::Probe]);
    assert_eq!(validator.next_action(), PairingAction::Stop);
}

#[test]
fn validator_stops_after_enabling_debugging_when_that_is_enough() {
    let mut device = PairingMockDevice {
        probe_results: vec![false, true],
        probes: 0,
        enable_ok: true,
        pair_ok: false,
        log: vec![],
    };
    let validator = pairing_run(3, &mut device);
    assert_eq!(validator.state(), PairingState::Valid);
    assert_eq!(
        device.log,
        vec![PairingAction::Probe, PairingAction::EnableDebug, PairingAction::Probe]
    );
}

#[test]
fn validator_fails_when_debugging_cannot_be_enabled() {
    let mut device = PairingMockDevice {
        probe_results: vec![],
        probes: 0,
        enable_ok: false,
        pair_ok: true,
        log: vec![],
    };
    let validator = pairing_run(3, &mut device);
    assert_eq!(validator.state(), PairingState::Fatal(ValidationError::EnableDebugFailed));
    assert_eq!(device.log, vec![PairingAction::Probe, PairingAction::EnableDebug]);
}

#[test]
fn validator_fails_when_pairing_fails() {
    let mut device = PairingMockDevice {
        probe_results: vec![],
        probes: 0,
        enable_ok: true,
        pair_ok: false,
        log: vec![],
    };
    let validator = pairing_run(3, &mut device);
    assert_eq!(validator.state(), PairingState::Fatal(ValidationError::PairingFailed));
    assert_eq!(
        device.log,
        vec![
            PairingAction::Probe,
            PairingAction::EnableDebug,
            PairingAction::Probe,
            PairingAction::Pair,
        ]
    );
}

#[test]
fn validator_is_exhausted_after_the_rounds_allowed() {
    let mut device = PairingMockDevice {
        probe_results: vec![],
        probes: 0,
        enable_ok: true,
        pair_ok: true,
        log: vec![],
    };
    let validator = pairing_run(3, &mut device);
    assert_eq!(validator.state(), PairingState::Fatal(ValidationError::ValidationExhausted));
    assert_eq!(device.log.len(), 13);
    assert_eq!(device.log.iter().filter(|a| **a == PairingAction::EnableDebug).count(), 3);
    assert_eq!(device.log.iter().filter(|a| **a == PairingAction::Pair).count(), 3);
    assert_eq!(device.log.iter().filter(|a| **a == PairingAction::Probe).count(), 7);
}

#[test]
fn validator_loops_back_to_enabling_debugging() {
    let mut device = PairingMockDevice {
        probe_results: vec![false, false, false, true],
        probes: 0,
        enable_ok: true,
        pair_ok: true,
        log: vec![],
    };
    let validator = pairing_run(2, &mut device);
    assert_eq!(validator.state(), PairingState::Valid);
    assert_eq!(
        device.log,
        vec![
            PairingAction::Probe,
            PairingAction::EnableDebug,
            PairingAction::Probe,
            PairingAction::Pair,
            PairingAction::Probe,
            PairingAction::EnableDebug,
            PairingAction::Probe,
        ]
    );
}

#[test]
fn validator_without_rounds_only_probes() {
    let mut validator = PairingValidator::new(0);
    assert_eq!(validator.next_action(), PairingAction::Probe);
    validator.advance(false);
    assert_eq!(validator.state(), PairingState::Fatal(ValidationError::ValidationExhausted));
    let mut validator = PairingValidator::new(0);
    validator.advance(true);
    assert_eq!(validator.state(), PairingState::Valid);
}

#[test]
fn validator_stays_settled() {
    let mut validator = PairingValidator::new(1);
    validator.advance(true);
    let settled = validator;
    validator.advance(false);
    assert_eq!(validator, settled);
    validator.advance(true);
    assert_eq!(validator, settled);
}

#[test]
fn replay_takes_outcomes_until_validation_ends() {
    let mut validator = PairingValidator::new(3);
    let performed = validator.replay(&vec![false, true, false, true, true, false, false]);
    assert_eq!(validator.state(), PairingState::Valid);
    assert_eq!(
        performed,
        vec![
            PairingAction::Probe,
            PairingAction::EnableDebug,
            PairingAction::Probe,
            PairingAction::Pair,
            PairingAction::Probe,
        ]
    );
    let mut validator = PairingValidator::new(3);
    let performed = validator.replay(&vec![false, true]);
    assert_eq!(validator.state(), PairingState::Untested);
    assert!(validator.debug_enabled);
    assert_eq!(performed, vec![PairingAction::Probe, PairingAction::EnableDebug]);
}

#[test]
fn validation_errors_have_kinds_and_messages() {
    assert_eq!(ValidationError::EnableDebugFailed.kind(), ErrorKind::Device);
    assert_eq!(ValidationError::PairingFailed.kind(), ErrorKind::Device);
    assert_eq!(ValidationError::ValidationExhausted.kind(), ErrorKind::ValidationExhausted);
    assert_eq!(
        ValidationError::EnableDebugFailed.message(),
        "enable wireless debugging: the device refused; make sure a passcode is set"
    );
    assert_eq!(ValidationError::PairingFailed.message(), "pair: the device refused to pair");
    assert_eq!(
        ValidationError::ValidationExhausted.message(),
        "probe: the pairing credential still fails after the last round of corrections"
    );
}

#[test]
fn debug_setting_is_spelt_as_the_device_knows_it() {
    assert_eq!(DEBUG_SETTING, "EnableWifiDebugging");
    assert_eq!(DEBUG_DOMAIN, "com.apple.mobile.wireless_lockdown");
}

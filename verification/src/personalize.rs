use vstd::prelude::*;
use crate::bplist::{decoded, DEPTH_LIMIT};
use crate::bplist_laws::{
    is_well_formed, lemma_decode_encode, lemma_decoded_well_formed, offset_limit,
};
use crate::bplist_write::encoded;
use crate::error::{DecodeError, PipelineError};
use crate::plist::{
    depth, item_at, lemma_depth_positive, lemma_items_depth, lemma_key_index,
    lemma_read_after_write, lemma_write_in_place, lemma_write_keeps_others, with_item, Plist,
    PropertyListDocument, PropertyListValue,
};
use crate::xml::xml_document;

verus! {

/// The key under which the configuration holds the device identifier.
pub const DEVICE_KEY: &'static str = "ALTDeviceID";

/// The key under which the configuration holds the pairing record.
pub const PAIRING_KEY: &'static str = "ALTPairingFile";

/// The key under which the configuration holds the address of the anisette
/// server.
pub const SERVER_KEY: &'static str = "customAnisetteURL";

/// The key under which the pairing record holds the device identifier.
pub const RECORD_DEVICE_KEY: &'static str = "UDID";

/// The device that a package is personalized for.
///
/// `address` is the IPv4 address at which the device is probed, where it is
/// probed over the network.
#[derive(Clone, Debug, PartialEq, Eq)]
pub struct DeviceIdentity {
    pub udid: String,
    pub network: bool,
    pub address: Option<(u8, u8, u8, u8)>,
}

/// What one run of the pipeline works with, taken once and never changed.
#[derive(Clone, Debug, PartialEq, Eq)]
pub struct PersonalizationInputs {
    pub device: DeviceIdentity,
    pub pairing_record: Vec<u8>,
    pub anisette_url: String,
}

/// The text that goes into the configuration for a pairing record: the
/// record, with the device identifier added to it, as XML. `None` where
/// the record is no property list with a dictionary for a root.
pub open spec fn pairing_text(record: Seq<u8>, udid: Seq<char>) -> Option<Seq<char>> {
    match decoded(record) {
        Ok(Plist::Dictionary(items)) => Some(
            xml_document(Plist::Dictionary(with_item(items, "UDID"@, Plist::String(udid)))),
        ),
        _ => None,
    }
}

/// The items of a configuration after the three values were written.
pub open spec fn personalized_items(
    items: Seq<(Seq<char>, Plist)>,
    udid: Seq<char>,
    pairing: Seq<char>,
    url: Seq<char>,
) -> Seq<(Seq<char>, Plist)> {
    with_item(
        with_item(
            with_item(items, "ALTDeviceID"@, Plist::String(udid)),
            "ALTPairingFile"@,
            Plist::String(pairing),
        ),
        "customAnisetteURL"@,
        Plist::String(url),
    )
}

/// The configuration that is made of the bytes `configuration` for a
/// device: the document in them with the device identifier, the pairing
/// text and the server address written into its root.
pub open spec fn personalized(
    configuration: Seq<u8>,
    udid: Seq<char>,
    record: Seq<u8>,
    url: Seq<char>,
) -> Result<Plist, PipelineError> {
    match decoded(configuration) {
        Ok(Plist::Dictionary(items)) => match pairing_text(record, udid) {
            Some(text) => Ok(Plist::Dictionary(personalized_items(items, udid, text, url))),
            None => Err(PipelineError::InvalidPairingRecord),
        },
        _ => Err(PipelineError::InvalidConfiguration),
    }
}

/// The three keys differ from each other.
pub proof fn lemma_keys_differ()
    ensures
        "ALTDeviceID"@ != "ALTPairingFile"@,
        "ALTDeviceID"@ != "customAnisetteURL"@,
        "ALTPairingFile"@ != "customAnisetteURL"@,
{
    reveal_strlit("ALTDeviceID");
    reveal_strlit("ALTPairingFile");
    reveal_strlit("customAnisetteURL");
    assert("ALTDeviceID"@.len() == 11);
    assert("ALTPairingFile"@.len() == 14);
    assert("customAnisetteURL"@.len() == 17);
}

/// Law: after the three values were written, each is read under its key,
/// whatever the configuration held before, and every other key reads as it
/// did.
pub proof fn lemma_personalized_reads(
    items: Seq<(Seq<char>, Plist)>,
    udid: Seq<char>,
    pairing: Seq<char>,
    url: Seq<char>,
)
    ensures
        item_at(personalized_items(items, udid, pairing, url), "ALTDeviceID"@) == Some(
            Plist::String(udid),
        ),
        item_at(personalized_items(items, udid, pairing, url), "ALTPairingFile"@) == Some(
            Plist::String(pairing),
        ),
        item_at(personalized_items(items, udid, pairing, url), "customAnisetteURL"@) == Some(
            Plist::String(url),
        ),
        forall|key: Seq<char>|
            key != "ALTDeviceID"@ && key != "ALTPairingFile"@ && key != "customAnisetteURL"@
                ==> item_at(personalized_items(items, udid, pairing, url), key) == item_at(
                items,
                key,
            ),
{
    lemma_keys_differ();
    let first = with_item(items, "ALTDeviceID"@, Plist::String(udid));
    let second = with_item(first, "ALTPairingFile"@, Plist::String(pairing));
    let third = with_item(second, "customAnisetteURL"@, Plist::String(url));
    lemma_read_after_write(items, "ALTDeviceID"@, Plist::String(udid));
    lemma_read_after_write(first, "ALTPairingFile"@, Plist::String(pairing));
    lemma_read_after_write(second, "customAnisetteURL"@, Plist::String(url));
    lemma_write_keeps_others(first, "ALTPairingFile"@, Plist::String(pairing), "ALTDeviceID"@);
    lemma_write_keeps_others(second, "customAnisetteURL"@, Plist::String(url), "ALTDeviceID"@);
    lemma_write_keeps_others(second, "customAnisetteURL"@, Plist::String(url), "ALTPairingFile"@);
    assert forall|key: Seq<char>|
        key != "ALTDeviceID"@ && key != "ALTPairingFile"@ && key != "customAnisetteURL"@ implies item_at(
        third,
        key,
    ) == item_at(items, key) by {
        lemma_write_keeps_others(items, "ALTDeviceID"@, Plist::String(udid), key);
        lemma_write_keeps_others(first, "ALTPairingFile"@, Plist::String(pairing), key);
        lemma_write_keeps_others(second, "customAnisetteURL"@, Plist::String(url), key);
    }
}

/// Writing a string into a well-formed dictionary leaves it well-formed
/// and no deeper than it was, or two deep where it held nothing.
pub proof fn lemma_with_item_well_formed(
    items: Seq<(Seq<char>, Plist)>,
    key: Seq<char>,
    text: Seq<char>,
    bound: nat,
)
    requires
        is_well_formed(Plist::Dictionary(items)),
        depth(Plist::Dictionary(items)) <= bound,
        bound >= 2,
    ensures
        is_well_formed(Plist::Dictionary(with_item(items, key, Plist::String(text)))),
        depth(Plist::Dictionary(with_item(items, key, Plist::String(text)))) <= bound,
{
    let value = Plist::String(text);
    lemma_key_index(items, key);
    lemma_write_in_place(items, key, value);
    lemma_items_depth(items, (bound - 1) as nat);
    let after = with_item(items, key, value);
    assert forall|i: int| 0 <= i < after.len() implies is_well_formed((#[trigger] after[i]).1)
        && depth(after[i].1) <= bound - 1 by {
        if i < items.len() && after[i] == items[i] {
            assert(is_well_formed(items[i].1));
        }
    }
    lemma_items_depth(after, (bound - 1) as nat);
}

/// Makes the text that goes into the configuration for the pairing record
/// of the inputs.
pub fn pairing_file(inputs: &PersonalizationInputs) -> (text: Option<String>)
    ensures
        match text {
            Some(t) => pairing_text(inputs.pairing_record@, inputs.device.udid@) == Some(t@),
            None => pairing_text(inputs.pairing_record@, inputs.device.udid@) is None,
        },
{
    let mut record = match PropertyListDocument::decode(&inputs.pairing_record) {
        Ok(record) => record,
        Err(_) => {
            return None;
        },
    };
    let udid = PropertyListValue::String(inputs.device.udid.clone());
    match record.set_dictionary_item("UDID", udid) {
        Ok(()) => Some(record.to_xml()),
        Err(_) => None,
    }
}

/// Makes the configuration document for a device out of the bytes of the
/// package's own.
///
/// Fails with `InvalidConfiguration` where the bytes are no property list
/// or its root is no dictionary, and with `InvalidPairingRecord` where the
/// same holds of the pairing record. Otherwise the three values are
/// written into the root, over whatever stood under their keys.
pub fn personalize_document(configuration: &Vec<u8>, inputs: &PersonalizationInputs) -> (made:
    Result<PropertyListDocument, PipelineError>)
    ensures
        match made {
            Ok(document) => personalized(
                configuration@,
                inputs.device.udid@,
                inputs.pairing_record@,
                inputs.anisette_url@,
            ) == Ok::<Plist, PipelineError>(document@),
            Err(e) => personalized(
                configuration@,
                inputs.device.udid@,
                inputs.pairing_record@,
                inputs.anisette_url@,
            ) == Err::<Plist, PipelineError>(e),
        },
{
    let mut document = match PropertyListDocument::decode(configuration) {
        Ok(document) => document,
        Err(_) => {
            return Err(PipelineError::InvalidConfiguration);
        },
    };
    let udid = PropertyListValue::String(inputs.device.udid.clone());
    if document.set_dictionary_item("ALTDeviceID", udid).is_err() {
        return Err(PipelineError::InvalidConfiguration);
    }
    let text = match pairing_file(inputs) {
        Some(text) => text,
        None => {
            return Err(PipelineError::InvalidPairingRecord);
        },
    };
    if document.set_dictionary_item("ALTPairingFile", PropertyListValue::String(text)).is_err() {
        return Err(PipelineError::InvalidConfiguration);
    }
    let url = PropertyListValue::String(inputs.anisette_url.clone());
    if document.set_dictionary_item("customAnisetteURL", url).is_err() {
        return Err(PipelineError::InvalidConfiguration);
    }
    Ok(document)
}

/// Makes the bytes of the configuration document for a device out of the
/// bytes of the package's own.
///
/// Fails as [`personalize_document`] does. The bytes that are made are the
/// binary property list of the new document, and reading them gives that
/// document again.
pub fn personalize_configuration(configuration: &Vec<u8>, inputs: &PersonalizationInputs) -> (made:
    Result<Vec<u8>, PipelineError>)
    ensures
        match made {
            Ok(bytes) => {
                let wanted = personalized(
                    configuration@,
                    inputs.device.udid@,
                    inputs.pairing_record@,
                    inputs.anisette_url@,
                );
                &&& wanted is Ok
                &&& bytes@ == encoded(wanted->Ok_0)
                &&& decoded(bytes@) == Ok::<Plist, DecodeError>(wanted->Ok_0)
            },
            Err(e) => personalized(
                configuration@,
                inputs.device.udid@,
                inputs.pairing_record@,
                inputs.anisette_url@,
            ) == Err::<Plist, PipelineError>(e),
        },
{
    match personalize_document(configuration, inputs) {
        Ok(document) => {
            let bytes = document.encode();
            proof {
                let items = decoded(configuration@)->Ok_0->Dictionary_0;
                let udid = inputs.device.udid@;
                let text = pairing_text(inputs.pairing_record@, udid)->Some_0;
                let url = inputs.anisette_url@;
                let first = with_item(items, "ALTDeviceID"@, Plist::String(udid));
                let second = with_item(first, "ALTPairingFile"@, Plist::String(text));
                lemma_decoded_well_formed(configuration@);
                lemma_depth_positive(Plist::Dictionary(items));
                lemma_with_item_well_formed(items, "ALTDeviceID"@, udid, DEPTH_LIMIT as nat);
                lemma_with_item_well_formed(first, "ALTPairingFile"@, text, DEPTH_LIMIT as nat);
                lemma_with_item_well_formed(second, "customAnisetteURL"@, url, DEPTH_LIMIT as nat);
                assert(bytes@.len() == bytes.len());
                assert(bytes.len() <= usize::MAX);
                assert(bytes@.len() < offset_limit());
                lemma_decode_encode(document@);
            }
            Ok(bytes)
        },
        Err(e) => Err(e),
    }
}

} // verus!

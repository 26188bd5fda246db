//! The `ApiVersions` handler.

use vstd::prelude::*;

use crate::endpoints::api_key::{all_api_keys, ApiKey};
use crate::protocol_types::api_versions::{ApiKeyEntry, ApiVersionsResponse};

verus! {

/// The entry that advertises key `k`.
pub open spec fn entry_of(k: ApiKey) -> ApiKeyEntry {
    ApiKeyEntry {
        api_key: k.spec_code(),
        min_version: k.spec_version_range().0,
        max_version: k.spec_version_range().1,
    }
}

/// Answers an `ApiVersions` request of version `version`: every served key
/// with its version range, and error code 35 (`UNSUPPORTED_VERSION`) when
/// `version` is outside 0..=4.
pub fn handle_api_versions_request(version: i16) -> (r: ApiVersionsResponse)
    ensures
        r.error_code == (if version < 0 || version > 4 {
            35i16
        } else {
            0i16
        }),
        r.api_keys@ == all_api_keys().map_values(|k: ApiKey| entry_of(k)),
        r.throttle_time_ms == 0,
{
    let error_code: i16 = if version < 0 || version > 4 {
        35
    } else {
        0
    };
    let keys = ApiKey::all();
    let ghost target = all_api_keys().map_values(|k: ApiKey| entry_of(k));
    let mut api_keys: Vec<ApiKeyEntry> = Vec::new();
    let mut i: usize = 0;
    while i < keys.len()
        invariant
            i <= keys@.len(),
            keys@ == all_api_keys(),
            target == all_api_keys().map_values(|k: ApiKey| entry_of(k)),
            api_keys@ == target.take(i as int),
        decreases keys@.len() - i,
    {
        let key = keys[i];
        let (min_version, max_version) = key.version_range();
        api_keys.push(ApiKeyEntry { api_key: key.code(), min_version, max_version });
        assert(api_keys@ =~= target.take(i + 1));
        i = i + 1;
    }
    assert(target.take(i as int) =~= target);
    ApiVersionsResponse { error_code, api_keys, throttle_time_ms: 0 }
}

} // verus!

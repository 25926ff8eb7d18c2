//! What the chain core's answers become in the replies to the consensus engine.
use vstd::prelude::*;
use crate::ballot::VoteError;
use crate::chain::VoteChainRunner;
use crate::db::app_hash_of;
use crate::digest::from_hex;

verus! {

/// The per-transaction part of a reply: `0` for success, `1` for refusal, with a payload.
pub struct TxResult {
    pub code: u32,
    pub data: String,
}

/// The answer to the consensus engine's `Info` request.
pub struct InfoResponse {
    pub data: String,
    pub version: String,
    pub app_version: u64,
    pub last_block_height: i64,
    pub last_block_app_hash: Vec<u8>,
}

/// The reply to `CheckTx`: the ballot digest on success, the reason on refusal.
pub fn check_tx_result(r: &Result<String, VoteError>) -> (t: TxResult)
    ensures
        r matches Ok(h) ==> t.code == 0 && t.data@ == h@,
        r matches Err(e) ==> t.code == 1 && t.data@ == e.spec_message(),
{
    match r {
        Ok(h) => TxResult { code: 0, data: h.clone() },
        Err(e) => TxResult { code: 1, data: e.message() },
    }
}

/// The per-transaction result of `FinalizeBlock`.
pub fn finalize_tx_result(r: &Result<String, VoteError>) -> (t: TxResult)
    ensures
        r is Ok ==> t.code == 0 && t.data@ == "Validated"@,
        r matches Err(e) ==> t.code == 1 && t.data@ == "Validation failed: "@ + e.spec_message(),
{
    match r {
        Ok(_) => TxResult { code: 0, data: "Validated".to_owned() },
        Err(e) => {
            let prefix: String = "Validation failed: ".to_owned();
            let msg: String = e.message();
            TxResult { code: 1, data: prefix.concat(msg.as_str()) }
        },
    }
}

/// The reply to `Info`: application name and versions, the height, and the application
/// hash as bytes.
pub fn app_info(runner: &VoteChainRunner) -> (r: InfoResponse)
    requires
        runner.wf(),
    ensures
        r.data@ == "zcash-vote-bft"@,
        r.version@ == "0.1.0"@,
        r.app_version == 1,
        r.last_block_height == runner.spec_store().state.height,
        r.last_block_app_hash@ == app_hash_of(runner.spec_store().elections@),
{
    proof {
        runner.lemma_wf_store();
    }
    let st = runner.info();
    let hash: Vec<u8> = match from_hex(&st.hash) {
        Some(h) => h,
        None => Vec::new(),
    };
    InfoResponse {
        data: "zcash-vote-bft".to_owned(),
        version: "0.1.0".to_owned(),
        app_version: 1,
        last_block_height: st.height as i64,
        last_block_app_hash: hash,
    }
}

} // verus!

use stake_cw20::queries::{is_active, BondingInfoResponse, BondingPeriodInfo,
    IsActiveResponse, Query, WyndexQueryMsg};

#[test]
fn voting_query_derive() {
    let _test = Query::VotingPowerAtHeight {
        address: "foo".to_string(),
        height: Some(10),
    };

    let test = Query::TotalPowerAtHeight { height: Some(10) };

    match test {
        Query::TokenContract {}
        | Query::TotalPowerAtHeight { height: _ }
        | Query::VotingPowerAtHeight {
            height: _,
            address: _,
        }
        | Query::IsActive {}
        | Query::Info {} => "yay",
    };
}

#[test]
fn ledger_reports_active() {
    let r: IsActiveResponse = is_active();
    assert!(r.active);
}

#[test]
fn wyndex_query_messages_exist() {
    let q = WyndexQueryMsg::Admin {};
    match q {
        WyndexQueryMsg::Admin {} => {}
        WyndexQueryMsg::BondingInfo {} => {}
    }
    let info = BondingInfoResponse {
        bonding: vec![BondingPeriodInfo {
            unbonding_period: 86_400,
            total_staked: 0,
        }],
    };
    assert_eq!(info.bonding.len(), 1);
    assert_eq!(info.bonding[0].unbonding_period, 86_400);
}

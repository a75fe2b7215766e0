use code2graph::{Extractor, FileFacts, RefRole, Symbol, SymbolKind};
use code2graph::extract::SolidityExtractor;

fn extract(src: &str, path: &str) -> FileFacts {
    SolidityExtractor.extract(src, path).unwrap()
}

fn by_name(facts: &FileFacts, name: &str) -> Option<Symbol> {
    facts.symbols.iter().find(|s| s.name == name).cloned()
}

// Test 1: contract with public function and private function → visibility gate.
#[test]
fn contract_visibility_gate() {
    let src = r#"
pragma solidity ^0.8.0;
contract Token {
function mint(address to) public {}
function _secret() private {}
}
"#;
    let facts = extract(src, "contracts/Token.sol");

    let token = by_name(&facts, "Token").unwrap();
    assert_eq!(token.kind, SymbolKind::Class);
    assert_eq!(
        token.id.to_scip_string(),
        "codegraph . . . contracts/Token/Token#"
    );

    let mint = by_name(&facts, "mint").unwrap();
    assert_eq!(mint.kind, SymbolKind::Method);
    assert_eq!(
        mint.id.to_scip_string(),
        "codegraph . . . contracts/Token/Token#mint()."
    );

    // private function must NOT be emitted
    assert!(by_name(&facts, "_secret").is_none());
}

// Test 2: interface → SymbolKind::Interface; library → SymbolKind::Class.
#[test]
fn interface_and_library_kinds() {
    let src = r#"
pragma solidity ^0.8.0;
interface IERC20 {
function transfer(address to, uint256 amount) external returns (bool);
}
library SafeMath {
function add(uint256 a, uint256 b) internal pure returns (uint256) { return a + b; }
}
"#;
    let facts = extract(src, "contracts/Defs.sol");

    let iface = by_name(&facts, "IERC20").unwrap();
    assert_eq!(iface.kind, SymbolKind::Interface);
    assert_eq!(
        iface.id.to_scip_string(),
        "codegraph . . . contracts/Defs/IERC20#"
    );

    let lib = by_name(&facts, "SafeMath").unwrap();
    assert_eq!(lib.kind, SymbolKind::Class);
    assert_eq!(
        lib.id.to_scip_string(),
        "codegraph . . . contracts/Defs/SafeMath#"
    );
}

// Test 3: state variable (public) → Static; `constant` → Const.
#[test]
fn state_variable_kinds() {
    let src = r#"
pragma solidity ^0.8.0;
contract Store {
uint256 public totalSupply;
uint256 public constant MAX_SUPPLY = 1000;
}
"#;
    let facts = extract(src, "src/Store.sol");

    let total = by_name(&facts, "totalSupply").unwrap();
    assert_eq!(total.kind, SymbolKind::Static);
    assert_eq!(
        total.id.to_scip_string(),
        "codegraph . . . src/Store/Store#totalSupply."
    );

    let max = by_name(&facts, "MAX_SUPPLY").unwrap();
    assert_eq!(max.kind, SymbolKind::Const);
    assert_eq!(
        max.id.to_scip_string(),
        "codegraph . . . src/Store/Store#MAX_SUPPLY."
    );
}

// Test 3b: file-level constant_variable_declaration → Const.
#[test]
fn file_level_constant() {
    let src = r#"
pragma solidity ^0.8.0;
uint256 constant VERSION = 1;
"#;
    let facts = extract(src, "contracts/Const.sol");

    let ver = by_name(&facts, "VERSION").unwrap();
    assert_eq!(ver.kind, SymbolKind::Const);
    assert_eq!(
        ver.id.to_scip_string(),
        "codegraph . . . contracts/Const/VERSION."
    );
}

// Test 4: struct with members → Struct Type + Static members;
//         enum with values → Enum Type + Const values.
#[test]
fn struct_and_enum() {
    let src = r#"
pragma solidity ^0.8.0;
contract Market {
struct Item {
    uint256 price;
    address seller;
}
enum Status { Active, Sold, Cancelled }
}
"#;
    let facts = extract(src, "contracts/Market.sol");

    let item = by_name(&facts, "Item").unwrap();
    assert_eq!(item.kind, SymbolKind::Struct);
    assert_eq!(
        item.id.to_scip_string(),
        "codegraph . . . contracts/Market/Market#Item#"
    );

    let price = by_name(&facts, "price").unwrap();
    assert_eq!(price.kind, SymbolKind::Static);
    assert_eq!(
        price.id.to_scip_string(),
        "codegraph . . . contracts/Market/Market#Item#price."
    );

    let seller = by_name(&facts, "seller").unwrap();
    assert_eq!(seller.kind, SymbolKind::Static);

    let status = by_name(&facts, "Status").unwrap();
    assert_eq!(status.kind, SymbolKind::Enum);
    assert_eq!(
        status.id.to_scip_string(),
        "codegraph . . . contracts/Market/Market#Status#"
    );

    let active = by_name(&facts, "Active").unwrap();
    assert_eq!(active.kind, SymbolKind::Const);
    assert_eq!(
        active.id.to_scip_string(),
        "codegraph . . . contracts/Market/Market#Status#Active."
    );
}

// Test 5: event → Other; modifier → Method.
#[test]
fn event_and_modifier() {
    let src = r#"
pragma solidity ^0.8.0;
contract Vault {
event Deposit(address indexed sender, uint256 amount);
modifier onlyOwner() {
    require(msg.sender == owner);
    _;
}
address owner;
}
"#;
    let facts = extract(src, "contracts/Vault.sol");

    let ev = by_name(&facts, "Deposit").unwrap();
    assert_eq!(ev.kind, SymbolKind::Other);
    assert_eq!(
        ev.id.to_scip_string(),
        "codegraph . . . contracts/Vault/Vault#Deposit."
    );

    let modifier = by_name(&facts, "onlyOwner").unwrap();
    assert_eq!(modifier.kind, SymbolKind::Method);
    assert_eq!(
        modifier.id.to_scip_string(),
        "codegraph . . . contracts/Vault/Vault#onlyOwner()."
    );
}

// Test 6: free function at file level (no contract) → Function under namespace.
#[test]
fn free_function_top_level() {
    let src = r#"
pragma solidity ^0.8.0;
function computeHash(bytes memory data) pure returns (bytes32) {
return keccak256(data);
}
"#;
    let facts = extract(src, "lib/Utils.sol");

    let func = by_name(&facts, "computeHash").unwrap();
    assert_eq!(func.kind, SymbolKind::Function);
    assert_eq!(
        func.id.to_scip_string(),
        "codegraph . . . lib/Utils/computeHash()."
    );
}

// Test 7: call references captured (free call + member call).
#[test]
fn solidity_call_references_captured() {
    let src = r#"
pragma solidity ^0.8.0;
contract Caller {
function run() public {
    foo();
    x.bar();
}
}
"#;
    let facts = extract(src, "contracts/Caller.sol");
    let names: Vec<&str> = facts.references.iter().map(|r| r.name.as_str()).collect();
    assert!(names.contains(&"foo"), "expected 'foo' in {names:?}");
    assert!(names.contains(&"bar"), "expected 'bar' in {names:?}");
}

#[test]
fn solidity_lang_tag() {
    let facts = extract("pragma solidity ^0.8.0;", "contracts/Foo.sol");
    assert_eq!(facts.lang, "solidity");
}

// Test: contract with multiple bases → two Inherit refs.
#[test]
fn contract_multiple_inheritance() {
    let src = "pragma solidity ^0.8.0; contract Foo is Bar, Baz {}";
    let facts = extract(src, "contracts/Foo.sol");

    let inherit: Vec<&str> = facts
        .references
        .iter()
        .filter(|r| r.role == RefRole::IsImplementation)
        .map(|r| r.name.as_str())
        .collect();
    assert!(inherit.contains(&"Bar"), "expected 'Bar' in {inherit:?}");
    assert!(inherit.contains(&"Baz"), "expected 'Baz' in {inherit:?}");
}

// Test: interface extending another → one Inherit ref.
#[test]
fn interface_inheritance() {
    let src = "pragma solidity ^0.8.0; interface I is J {}";
    let facts = extract(src, "contracts/I.sol");

    let inherit: Vec<&str> = facts
        .references
        .iter()
        .filter(|r| r.role == RefRole::IsImplementation)
        .map(|r| r.name.as_str())
        .collect();
    assert!(inherit.contains(&"J"), "expected 'J' in {inherit:?}");
}

// Test: dotted library type in is-clause → leaf name only.
#[test]
fn dotted_parent_simple_name() {
    let src = "pragma solidity ^0.8.0; contract C is Lib.Base {}";
    let facts = extract(src, "contracts/C.sol");

    let inherit: Vec<&str> = facts
        .references
        .iter()
        .filter(|r| r.role == RefRole::IsImplementation)
        .map(|r| r.name.as_str())
        .collect();
    assert!(
        inherit.contains(&"Base"),
        "expected 'Base' (leaf of 'Lib.Base') in {inherit:?}"
    );
    assert!(
        !inherit.contains(&"Lib.Base"),
        "dotted form must not appear in {inherit:?}"
    );
}

// Test: single named import → one Import ref.
#[test]
fn import_single_named() {
    let src = r#"pragma solidity ^0.8.0; import {ERC20} from "./ERC20.sol";"#;
    let facts = extract(src, "contracts/Token.sol");

    let imports: Vec<&str> = facts
        .references
        .iter()
        .filter(|r| r.role == RefRole::Import)
        .map(|r| r.name.as_str())
        .collect();
    assert_eq!(
        imports,
        vec!["ERC20"],
        "expected [\"ERC20\"] but got {imports:?}"
    );
}

// Test: multiple named imports → one Import ref per name.
#[test]
fn import_multiple_named() {
    let src = r#"pragma solidity ^0.8.0; import {A, B} from "x.sol";"#;
    let facts = extract(src, "contracts/Multi.sol");

    let imports: Vec<&str> = facts
        .references
        .iter()
        .filter(|r| r.role == RefRole::Import)
        .map(|r| r.name.as_str())
        .collect();
    assert!(imports.contains(&"A"), "expected 'A' in {imports:?}");
    assert!(imports.contains(&"B"), "expected 'B' in {imports:?}");
    assert_eq!(
        imports.len(),
        2,
        "expected exactly 2 import refs, got {imports:?}"
    );
}

// Test: aliased import → emit the original name, not the alias.
#[test]
fn import_aliased_emits_original_name() {
    let src = r#"pragma solidity ^0.8.0; import {Foo as F} from "x.sol";"#;
    let facts = extract(src, "contracts/Alias.sol");

    let imports: Vec<&str> = facts
        .references
        .iter()
        .filter(|r| r.role == RefRole::Import)
        .map(|r| r.name.as_str())
        .collect();
    assert!(imports.contains(&"Foo"), "expected 'Foo' in {imports:?}");
    assert!(
        !imports.contains(&"F"),
        "alias 'F' must not appear in {imports:?}"
    );
}

// Test: whole-file import (no import_name field) → no Import refs.
#[test]
fn import_whole_file_emits_nothing() {
    let src = r#"pragma solidity ^0.8.0; import "./lib.sol";"#;
    let facts = extract(src, "contracts/WF.sol");

    let imports: Vec<&str> = facts
        .references
        .iter()
        .filter(|r| r.role == RefRole::Import)
        .map(|r| r.name.as_str())
        .collect();
    assert!(
        imports.is_empty(),
        "expected no import refs but got {imports:?}"
    );
}

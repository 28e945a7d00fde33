use luna_code::api::LunaApi;
use luna_code::commands::{str_less, CommandRegistry};
use luna_code::error::LunaError;
use luna_code::events::Event;
use luna_code::types::CommandId;

type Callback = Box<dyn Fn(&Event) + Send + Sync>;
type Handler = Box<dyn Fn(&[String]) -> Result<Option<String>, String> + Send + Sync>;

fn echo() -> Handler {
    Box::new(|args: &[String]| Ok(Some(args.join(" "))))
}

#[test]
fn register_and_list_sorted_by_name() {
    let mut reg: CommandRegistry<Handler> = CommandRegistry::new();
    let a = reg.register("zeta", "último", echo()).unwrap();
    let b = reg.register("alfa", "primeiro", echo()).unwrap();
    let c = reg.register("meio", "do meio", echo()).unwrap();
    assert_eq!((a, b, c), (CommandId(1), CommandId(2), CommandId(3)));
    let list = reg.list();
    let names: Vec<&str> = list.iter().map(|i| i.name.as_str()).collect();
    assert_eq!(names, vec!["alfa", "meio", "zeta"]);
    assert_eq!(list[0].id, b);
    assert_eq!(list[0].description, "primeiro");
    assert!(reg.contains("meio"));
    assert!(!reg.contains("outro"));
}

#[test]
fn registering_a_name_twice_is_refused() {
    let mut reg: CommandRegistry<Handler> = CommandRegistry::default();
    reg.register("salvar", "salva", echo()).unwrap();
    match reg.register("salvar", "de novo", echo()) {
        Err(LunaError::Internal(m)) => assert_eq!(
            m,
            "comando 'salvar' já está registrado; cancele o registro anterior antes de registrar novamente"
        ),
        other => panic!("unexpected {:?}", other.map(|_| ())),
    }
    assert_eq!(reg.list().len(), 1);
    reg.unregister("salvar");
    assert!(!reg.contains("salvar"));
    assert_eq!(reg.register("salvar", "outra vez", echo()).unwrap(), CommandId(2));
}

#[test]
fn unregistering_an_unknown_name_changes_nothing() {
    let mut reg: CommandRegistry<Handler> = CommandRegistry::new();
    reg.register("a", "", echo()).unwrap();
    reg.unregister("b");
    assert_eq!(reg.list().len(), 1);
}

#[test]
fn execute_reports_the_outcome() {
    let mut api: LunaApi<Callback, Handler> = LunaApi::new();
    api.register_command("eco", "repete", echo()).unwrap();
    assert!(api.has_command("eco"));
    let args = vec!["a".to_owned(), "b".to_owned()];
    let handler = api.command_handler("eco").unwrap();
    let outcome = handler(&args);
    assert_eq!(api.execute_command("eco", outcome).unwrap(), Some("a b".to_owned()));
    match api.execute_command("eco", Err("falhou".to_owned())) {
        Err(LunaError::CommandExecutionFailed { name, reason }) => {
            assert_eq!(name, "eco");
            assert_eq!(reason, "falhou");
        }
        other => panic!("unexpected {:?}", other),
    }
    assert!(matches!(
        api.execute_command("nada", Ok(None)),
        Err(LunaError::CommandNotFound(n)) if n == "nada"
    ));
    assert!(matches!(api.command_handler("nada"), Err(LunaError::CommandNotFound(_))));
    let list = api.list_commands();
    assert_eq!(list.len(), 1);
    api.unregister_command("eco");
    assert!(!api.has_command("eco"));
}

#[test]
fn names_compare_as_str() {
    assert!(str_less("a", "b"));
    assert!(str_less("a", "ab"));
    assert!(!str_less("ab", "a"));
    assert!(!str_less("a", "a"));
    assert!(str_less("Z", "a"));
    assert!(str_less("z", "á"));
}

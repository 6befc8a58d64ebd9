# holoProxy

A proxy between a client and any OpenAI-compatible model. It answers

- `POST /v1/messages`: Anthropic Messages, converted to OpenAI Chat Completions
  and back as a stream of events;
- `POST /v1/chat/completions`: OpenAI Chat Completions, passed on to the model of
  the configuration, reasoning between `<thinking>` tags, tool calls in the text
  as tool calls;
- `GET /v1/models` and `POST /v1/select_model`: the models, and switching.

## Layout

- `src/` is the library, verified with Verus: the conversion, the two stream
  machines, the reading of tool calls, recovery, trimming, retries, the
  configuration, the menu and the icon. The laws of the library are the public
  proof functions whose names begin with `law_`.
- `app/` is the program around it: the server, the requests, the configuration
  file, the system tray.
- `tests/` runs the library.

What the library takes on trust are the calls into `serde_json`, `regex`, `uuid`,
`indexmap` and a few functions of std; each stands behind one small function or
declaration whose comment says what is claimed of it.

## Configuration

`settings.json` beside the program:

```json
{
  "active_llm": "local",
  "llms": {
    "local": {
      "base_url": "http://127.0.0.1:8000/v1",
      "model_name": "default-model",
      "context_max_length": "200k",
      "api_key": "none",
      "thinking": true,
      "reasoning_effort": "max",
      "stream": true
    }
  }
}
```
